pub mod chat;
pub mod encounter;
pub mod live;
pub mod modules;
pub mod optimizer;
pub mod scene;
pub mod sort;
pub mod tcp_table;
pub mod text;
pub mod webhook_state;
