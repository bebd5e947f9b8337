pub mod dashu_backend;
