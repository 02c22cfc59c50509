//! The controller, which stores and serves model parameters and self play data: what it stores, what
//! it is asked, and what its clients keep of its answers.

pub use crate::nn::train::buffer::PositionsBuffer;
pub use crate::nn::train::client::{ControllerClient, FetchModelData};
pub use crate::nn::train::models::{HttpListModels, HttpListModelsItem, ModelInfo, Models, Refusal};
