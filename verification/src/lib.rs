pub mod fund_type;
pub mod fund_item;
pub mod fund_module;
pub mod user_data;
pub mod fund_transf_module;
pub mod fund_view_module;
pub mod settings;
pub mod pause;
pub mod rewards;
pub mod affected_user_id_vec;
pub mod delegation;
pub mod codec;
pub mod serialization;
pub mod pool;
