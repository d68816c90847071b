//! Fixed settings: version, cache file names, remote endpoints and the
//! batch size.  The speed thresholds and time-outs, which are floating-point
//! and `Duration` values, live with the program that measures speeds.
use vstd::prelude::*;

verus! {

pub const VERSION: &'static str = "3.0.0";

// Cache and list files.
pub const CACHE_M3U8: &'static str = "iptv_sources.m3u8";

pub const CACHE_TXT: &'static str = "iptv_sources.txt";

pub const CHANNEL_LIST_FILE: &'static str = "channel_list.txt";

pub const HSMD_ADDRESS_LIST_FILE: &'static str = "hsmd_address_list.txt";

// Remote endpoints.
pub const API_URL: &'static str = "https://iptvs.pes.im";

pub const EPG_URL: &'static str = "https://epg.zsdc.eu.org/t.xml";

pub const LOGO_BASE_URL: &'static str =
    "https://ghfast.top/https://raw.githubusercontent.com/Jarrey/iptv_logo/main/tv/";

pub const DEFAULT_SUB_URL: &'static str =
    "http://gh-proxy.com/raw.githubusercontent.com/suxuang/myIPTV/main/ipv4.m3u";

// Paths of the IPTV host kinds.
pub const ZHGXTV_INTERFACE: &'static str = "/ZHGXTV/Public/json/live_interface.txt";

pub const HSMDTV_TEST_URI: &'static str = "/newlive/live/hls/1/live.m3u8";

pub const BATCH_SIZE: usize = 60;

} // verus!
