pub mod actions;
pub mod conditions;
pub mod effects;
pub mod settings;
pub mod state;
pub mod units;

pub use crate::solvers::actions::ActionMask;
pub use actions::{Action, ComboAction};
pub use conditions::Condition;
pub use effects::Effects;
pub use settings::Settings;
pub use state::{InProgress, State};
