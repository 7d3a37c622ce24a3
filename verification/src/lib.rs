//! Stream depletion from groundwater pumping, in exact integer arithmetic.
//!
//! Volumes are whole micro-acre-feet and response fractions are whole
//! billionths, so that every sum the engine forms is exact and the
//! statements proved about it hold without rounding.

pub mod calendar;
pub mod daily;
pub mod depletion;
pub mod image_wells;
pub mod urf;

pub use calendar::add_months;
pub use calendar::Date;
pub use daily::monthly_pumping_to_daily;
pub use daily::usage_in_range;
pub use daily::DailyRates;
pub use depletion::calculate_streamflow_depletion;
pub use depletion::monthly_total;
pub use depletion::create_results_vector;
pub use depletion::daily_depletion;
pub use depletion::response_days;
pub use image_wells::ImageWells;
pub use image_wells::Step;
pub use urf::combined_urf_results;
pub use urf::lags_fit;
pub use urf::series_in_range;
pub use urf::urf_lagging;
pub use urf::UrfValue;
