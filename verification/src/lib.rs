//! Host/client wire protocol of the extender screen, and the pure logic of
//! the hosts around it: length-prefixed framing, Wi-Fi information parsing,
//! QR module rendering and screen-preview preparation.

pub mod protocol;
pub mod qr;
pub mod snapshot;
pub mod wifi;
