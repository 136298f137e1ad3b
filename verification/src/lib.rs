//! Protocol logic of a set of small networking tools: a stop-and-wait file
//! transfer, an ICMP tracer, a RIP distance-vector simulator, FTP and SMTP
//! clients, a product catalogue service, a blacklisting proxy, a remote
//! command runner and UDP ping/heartbeat tools.

pub mod commands;
pub mod tracer;
pub mod ftp;
pub mod http;
pub mod products;
pub mod proxy;
pub mod reply;
pub mod ping;
pub mod rip;
pub mod saw;
pub mod smtp;
pub mod text;
