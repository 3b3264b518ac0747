pub mod badge;
pub mod button;
pub mod redemption_chart;
