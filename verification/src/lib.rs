//! The logic of the DeepSeek Harness desktop shell: finding the Node tool
//! chain and a running `dsh web`, signing a browser session cookie for it,
//! starting our own `dsh web` when none runs, the start-up sequence of the
//! window and the update check of the menu.

pub mod text;
pub mod instance;
pub mod env_detect;
pub mod cookie_auth;
pub mod launcher;
pub mod orchestrator;
pub mod menu;
