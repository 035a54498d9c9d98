pub mod either;
