pub mod graph_manager;
