//! Settings.
use crate::models::Text;
use crate::text::{int_value, law_int_reads_back, opt_str, parse_int, signed_decimal, texts};
use vstd::prelude::*;

verus! {

/// How the tracker behaves.
#[derive(Clone, PartialEq, Eq, Debug)]
pub struct StintConfig<L = Vec<String>> {
    /// Seconds without a prompt after which a shell counts as idle.
    pub idle_threshold_secs: i64,
    /// Whether repositories become projects when a shell enters them.
    pub auto_discover: bool,
    /// The tags of such projects.
    pub default_tags: L,
    /// The hourly rate of such projects, in cents.
    pub default_rate_cents: Option<i64>,
}

/// Settings in contracts.
pub type ConfigView = StintConfig<Seq<Text>>;

/// The idle threshold where none is set, in seconds.
pub const DEFAULT_IDLE_SECS: i64 = 300;

impl View for StintConfig {
    type V = ConfigView;

    open spec fn view(&self) -> ConfigView {
        StintConfig {
            idle_threshold_secs: self.idle_threshold_secs,
            auto_discover: self.auto_discover,
            default_tags: texts(self.default_tags@),
            default_rate_cents: self.default_rate_cents,
        }
    }
}

impl Default for StintConfig {
    /// Idle after five minutes, repositories are discovered, without tags or rate.
    fn default() -> (r: StintConfig)
        ensures
            r@ == default_config(),
    {
        let r = StintConfig {
            idle_threshold_secs: DEFAULT_IDLE_SECS,
            auto_discover: true,
            default_tags: Vec::new(),
            default_rate_cents: None,
        };
        assert(texts(r.default_tags@) =~= Seq::<Text>::empty());
        r
    }
}

/// The settings where nothing is set.
pub open spec fn default_config() -> ConfigView {
    StintConfig {
        idle_threshold_secs: DEFAULT_IDLE_SECS,
        auto_discover: true,
        default_tags: Seq::<Text>::empty(),
        default_rate_cents: None,
    }
}

/// The idle threshold that the environment asks for: what the variable holds, if it is a number.
pub open spec fn asked_threshold(variable: Option<Text>) -> Option<i64> {
    match variable {
        Some(s) => int_value(s),
        None => None,
    }
}

/// The idle threshold of the status display: the one asked for or the default, at least a second.
pub open spec fn status_threshold(variable: Option<Text>) -> i64 {
    let n = match asked_threshold(variable) {
        Some(n) => n,
        None => DEFAULT_IDLE_SECS,
    };
    if n < 1 {
        1
    } else {
        n
    }
}

/// The settings of the shell hook: the defaults, with the threshold that the environment asks for,
/// and without discovery where the environment switches it off.
pub open spec fn hook_config(threshold: Option<Text>, no_discover: bool) -> ConfigView {
    StintConfig {
        idle_threshold_secs: match asked_threshold(threshold) {
            Some(n) => n,
            None => DEFAULT_IDLE_SECS,
        },
        auto_discover: !no_discover,
        ..default_config()
    }
}

/// Reads the idle threshold that the environment asks for.
fn read_threshold(variable: Option<&str>) -> (r: Option<i64>)
    ensures
        r == asked_threshold(opt_str(variable)),
{
    match variable {
        Some(s) => parse_int(s),
        None => None,
    }
}

/// The idle threshold of the status display.
pub fn idle_threshold_for_status(variable: Option<&str>) -> (r: i64)
    ensures
        r == status_threshold(opt_str(variable)),
{
    let n: i64 = match read_threshold(variable) {
        Some(n) => n,
        None => DEFAULT_IDLE_SECS,
    };
    if n < 1 {
        1
    } else {
        n
    }
}

/// The settings of the shell hook; `threshold` is what the environment variable holds.
pub fn config_for_hook(threshold: Option<&str>, no_discover: bool) -> (r: StintConfig)
    ensures
        r@ == hook_config(opt_str(threshold), no_discover),
{
    let mut config: StintConfig = Default::default();
    if let Some(secs) = read_threshold(threshold) {
        config.idle_threshold_secs = secs;
    }
    if no_discover {
        config.auto_discover = false;
    }
    config
}

/// The threshold that the environment gives as a number counts, for the status display at least a
/// second; without a number it is five minutes. Discovery is on unless it is switched off.
pub proof fn law_settings(n: i64, text: Text, no_discover: bool)
    requires
        int_value(text) is None,
    ensures
        status_threshold(Some(signed_decimal(n as int))) == if n < 1 {
            1
        } else {
            n
        },
        status_threshold(Some(text)) == 300,
        status_threshold(None) == 300,
        hook_config(Some(signed_decimal(n as int)), no_discover).idle_threshold_secs == n,
        hook_config(Some(text), no_discover).idle_threshold_secs == 300,
        hook_config(None, no_discover).idle_threshold_secs == 300,
        hook_config(None, no_discover).auto_discover == !no_discover,
        hook_config(Some(text), no_discover).auto_discover == !no_discover,
        hook_config(None, no_discover).default_tags.len() == 0,
        hook_config(None, no_discover).default_rate_cents is None,
{
    law_int_reads_back(n);
}

} // verus!
