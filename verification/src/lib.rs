//! Bot detection and behaviour analysis on web traffic logs.
//!
//! The modules `text`, `number`, `order`, `keyed`, `ratio`, `histogram`, `pattern`, `stamp` and
//! `report` are what the analyses are made of. Each analysis has a module of its own:
//!
//! * `enrich` adds hosts to an access log, `nginx` turns it into rows of a table;
//! * `analyze_ip`, `ip_400` and `ip_static` watch the requests of each address, by way of
//!   `ingress` and `detection`;
//! * `route`, `bot_route` and `ip_route` follow visits through the site, by way of `visits`,
//!   `transitions`, `dwell` and `heatmap`;
//! * `replay` gathers recorded mouse movements;
//! * `udger` holds the traffic against a directory of known addresses;
//! * `dbscan` puts visits into clusters.

pub mod histogram;
pub mod keyed;
pub mod number;
pub mod order;
pub mod pattern;
pub mod ratio;
pub mod report;
pub mod stamp;
pub mod text;

pub mod detection;
pub mod ingress;

pub mod analyze_ip;
pub mod enrich;
pub mod ip_400;
pub mod ip_static;
pub mod nginx;

pub mod dwell;
pub mod heatmap;
pub mod transitions;
pub mod visits;

pub mod bot_route;
pub mod ip_route;
pub mod route;

pub mod dbscan;
pub mod replay;
pub mod udger;
