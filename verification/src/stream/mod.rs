pub mod level_stream;
