//! Tests of the configuration of neighbor discovery.

use fuchsia::ndp::config::{NdpConfiguration, MAX_RTR_SOLICITATIONS};
use fuchsia::net::num::NonZeroU8;

#[test]
fn test_ndp_configuration() {
    let mut c = NdpConfiguration::default();
    let solicits = NonZeroU8::new(MAX_RTR_SOLICITATIONS);
    assert_eq!(c.get_max_router_solicitations(), solicits);

    let solicits = None;
    c.set_max_router_solicitations(solicits);
    assert_eq!(c.get_max_router_solicitations(), solicits);

    let solicits = NonZeroU8::new(2);
    c.set_max_router_solicitations(solicits);
    assert_eq!(c.get_max_router_solicitations(), solicits);

    // Max Router Solicitations gets saturated at `MAX_RTR_SOLICITATIONS`.
    c.set_max_router_solicitations(NonZeroU8::new(MAX_RTR_SOLICITATIONS + 1));
    assert_eq!(c.get_max_router_solicitations(), NonZeroU8::new(MAX_RTR_SOLICITATIONS));
}
