pub mod text;
pub mod update;
pub mod llm;
pub mod db;
pub mod order;
pub mod ai;
pub mod mindmap;
pub mod gateway;
pub mod sync;
pub mod settings;
pub mod keystore;
pub mod srs;
