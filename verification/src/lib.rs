pub mod laws;
pub mod model;
pub mod scanner;
pub mod tokens;

pub use scanner::Scanner;
pub use tokens::LoxError;
pub use tokens::Token;
pub use tokens::TokenType;
