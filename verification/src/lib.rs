//! Enumeration of a host's network adapters: decoding of raw socket-address
//! buffers into textual IP addresses, inference of an adapter's IPv4 subnet
//! mask from observed prefix addresses, and assembly of one owned record per
//! adapter from the platform's raw adapter data.

mod adapter;
mod chars;
mod ipv4;
mod ipv6;
mod text;

pub use adapter::{AdapterError, AdapterInfo, QueryCall, RawAdapter, RawSockAddr, TextField};
pub use adapter::{build_adapter, first_adapter_query, get_all_adapter_info, get_ip_addr,
    get_ipv4_addr, second_adapter_query};
pub use adapter::lemma_enumeration_shape_stable;
pub use adapter::{AF_INET, AF_INET6, NO_ERROR, OPER_STATUS_UP};
pub use ipv4::{calculate_subnet_info, infer_prefix, ipv4_string, parse_ipv4, u32_ipv4_string,
    u32_of};
pub use ipv4::{lemma_canonical_ipv4_unique, lemma_subnet_inference_finds_prefix};
pub use ipv6::{ipv6_string, lemma_canonical_ipv6_unique};
pub use text::{ascii_string, utf16_string};
