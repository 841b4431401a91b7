//! Routing of payment requests across competing service providers.
//!
//! Three components carry the logic. The [`service_registry`] keeps the
//! providers and a bounded history of their response times. The
//! [`cost_optimizer`] keeps a bounded usage history and running statistics per
//! chain, picks a provider for a payment and advises on moving traffic away
//! from chains that fail too often. The [`payment_processor`] runs the
//! lifecycle of each payment, with a bounded number of retries.
//!
//! Every quantity is held exactly. A probability is a whole number of parts per
//! million, a mean is a total beside a count, and a quotient that has to leave
//! the library is a [`types::Ratio`]. The current time is an argument of each
//! operation that needs it.

pub mod cost_optimizer;
pub mod exact;
pub mod payment_processor;
pub mod ring;
pub mod selection;
pub mod service_registry;
pub mod types;
