//! The report service: the fixed-width formatters of single values, and the
//! health report of one link group.

use crate::decimal::read_binary64;
use crate::decimal::text_value;
use crate::decimal::NAN_BITS;
use crate::display::ms_text;
use crate::display::pct_text;
use crate::display::render_ms;
use crate::display::render_pct;
use crate::display::render_score;
use crate::display::score_text;
use crate::machine::machine_text;
use crate::reading::lemma_binary64_wf;
use crate::reading::Binary64;
use crate::links::resolved_flags;
use crate::links::LinkFlags;
use crate::report::build_report;
use crate::report::report;
use crate::report::LinksResponse;
use crate::stats::find_port;
use crate::stats::server_stats;
use crate::stats::Globals;
use crate::text::decimal_text;
use crate::text::pad_left;
use crate::text::push_decimal;
use crate::text::push_padded_left;
use vstd::prelude::*;

verus! {

/// The report service of the proxy, over the routing state that it reads.
#[derive(Debug)]
pub struct ProxyApiImpl {
    pub globals: Globals,
}

/// What is wrong with the input of a call.
#[derive(Debug)]
pub enum RpcInputError {
    /// The parameter of the given name cannot take the given value.
    InvalidParams(String, String),
}

/// The largest count that is written out in full.
pub const COUNT_MAX: u64 = 99_999_999;

/// A count in nine characters.
///
/// The largest 64-bit number stands for "no data" and gives a dash. Any
/// other count above 99,999,999 gives `>99999999`. The rest are written
/// right-justified.
pub open spec fn count_text(n: u64) -> Seq<char> {
    if n == u64::MAX {
        "        -"@
    } else if n > COUNT_MAX {
        ">99999999"@
    } else {
        pad_left(decimal_text(n as nat), 9)
    }
}

/// The 64-bit count that a 32-bit count stands for: "no data" for the
/// largest 32-bit number, the number itself otherwise.
pub open spec fn widen_count(n: u32) -> u64 {
    if n == u32::MAX {
        u64::MAX
    } else {
        n as u64
    }
}

/// The bit pattern of minus one: the value that stands for text that
/// writes no number where a time or a percentage is expected.
pub const MINUS_ONE_BITS: u64 = 0xbff0_0000_0000_0000;

/// The value that the text `s` reads as, or `otherwise` where it writes no number.
pub open spec fn value_or(s: Seq<char>, otherwise: Binary64) -> Binary64 {
    match text_value(s) {
        Some(value) => value,
        None => otherwise,
    }
}

/// The rendering as a time in milliseconds of what `s` reads as. Text that
/// writes no number is rendered as minus one is: as a dash.
pub open spec fn str_ms_text(s: Seq<char>) -> Seq<char> {
    ms_text(value_or(s, Binary64 { bits: MINUS_ONE_BITS })@)
}

/// The rendering as a percentage of what `s` reads as. Text that writes no
/// number is rendered as minus one is: as a dash.
pub open spec fn str_pct_text(s: Seq<char>) -> Seq<char> {
    pct_text(value_or(s, Binary64 { bits: MINUS_ONE_BITS })@)
}

/// The rendering as a signed score of what `s` reads as. Text that writes
/// no number is rendered as a value that is not a number is: as a dash.
pub open spec fn str_score_text(s: Seq<char>) -> Seq<char> {
    score_text(value_or(s, Binary64 { bits: NAN_BITS })@)
}

/// Reads the value that `text` writes, or takes `otherwise` where it
/// writes no number.
fn read_or(text: &str, otherwise: Binary64) -> (value: Binary64)
    ensures
        value == value_or(text@, otherwise),
{
    let chars = chars_of(text);
    match read_binary64(&chars) {
        Some(value) => value,
        None => otherwise,
    }
}

/// The characters of `text`, in order.
pub fn chars_of(text: &str) -> (chars: Vec<char>)
    ensures
        chars@ == text@,
{
    let mut chars: Vec<char> = Vec::new();
    for c in it: text.chars()
        invariant
            it.seq() == text@,
            chars@ == text@.take(it.index() as int),
    {
        chars.push(c);
        assert(text@.take(it.index() + 1) == text@.take(it.index() as int).push(
            text@[it.index() as int],
        ));
    }
    assert(text@.take(text@.len() as int) == text@);
    chars
}

impl ProxyApiImpl {
    pub fn new(globals: Globals) -> (api: Self)
        ensures
            api.globals == globals,
    {
        Self { globals }
    }

    /// Reports on the health of the link group named `workdir`.
    ///
    /// The options are settled as [`resolved_flags`] says. `debug_out` is
    /// the diagnostic text that the caller captured together with the
    /// routing state; it is handed on only where the debug text is chosen.
    /// A name that no link group has is refused as an invalid `workdir`.
    pub fn get_links(
        &self,
        workdir: String,
        summary: Option<bool>,
        links: Option<bool>,
        data: Option<bool>,
        display: Option<bool>,
        debug: Option<bool>,
        debug_out: String,
    ) -> (result: Result<LinksResponse, RpcInputError>)
        ensures
            match find_port(self.globals.input_ports@, workdir@) {
                Some(i) => result matches Ok(response) && response@ == report(
                    self.globals.input_ports[i].all_servers_stats,
                    server_stats(self.globals.input_ports[i].target_servers@),
                    resolved_flags(summary, links, data, display, debug),
                    debug_out@,
                ),
                None => result matches Err(RpcInputError::InvalidParams(name, value)) && name@
                    == "workdir"@ && value@ == workdir@,
            },
    {
        let flags = LinkFlags::resolve(summary, links, data, display, debug);
        match self.globals.snapshot(workdir.as_str()) {
            Some(snapshot) => Ok(build_report(&snapshot, flags, debug_out)),
            None => Err(RpcInputError::InvalidParams("workdir".to_string(), workdir)),
        }
    }

    /// A metric value for the machine-readable report: plain decimal text
    /// with two decimals, or nothing for a value that is not finite.
    pub fn fmt_f64_api(input: Binary64) -> (out: String)
        ensures
            out@ == machine_text(input@),
    {
        input.machine_form()
    }

    /// The time in milliseconds that `input` reads as, in seven characters.
    /// Text that writes no number gives a dash.
    pub fn fmt_str_ms(input: &str) -> (out: String)
        ensures
            out@ == str_ms_text(input@),
    {
        Self::fmt_f64_ms(read_or(input, Binary64 { bits: MINUS_ONE_BITS }))
    }

    /// A time in milliseconds, in seven characters.
    pub fn fmt_f64_ms(input: Binary64) -> (out: String)
        ensures
            out@ == ms_text(input@),
    {
        proof {
            lemma_binary64_wf(input);
        }
        render_ms(input.sample(), Ghost(input@))
    }

    /// The percentage that `input` reads as, in five characters. Text that
    /// writes no number gives a dash, as a negative percentage does.
    pub fn fmt_str_pct(input: &str) -> (out: String)
        ensures
            out@ == str_pct_text(input@),
    {
        Self::fmt_f64_pct(read_or(input, Binary64 { bits: MINUS_ONE_BITS }))
    }

    /// A percentage, in five characters.
    pub fn fmt_f64_pct(input: Binary64) -> (out: String)
        ensures
            out@ == pct_text(input@),
    {
        proof {
            lemma_binary64_wf(input);
        }
        render_pct(input.sample(), Ghost(input@))
    }

    /// The signed score that `input` reads as, in six characters. Text
    /// that writes no number gives a dash, as a score without a sample does.
    pub fn fmt_str_score(input: &str) -> (out: String)
        ensures
            out@ == str_score_text(input@),
    {
        Self::fmt_f64_score(read_or(input, Binary64 { bits: NAN_BITS }))
    }

    /// A signed score, in six characters.
    pub fn fmt_f64_score(input: Binary64) -> (out: String)
        ensures
            out@ == score_text(input@),
    {
        proof {
            lemma_binary64_wf(input);
        }
        render_score(input.sample(), Ghost(input@))
    }

    /// A count, in nine characters.
    pub fn fmt_u64(input: u64) -> (out: String)
        ensures
            out@ == count_text(input),
    {
        if input == u64::MAX {
            "        -".to_string()
        } else if input > COUNT_MAX {
            ">99999999".to_string()
        } else {
            let mut digits = String::new();
            push_decimal(&mut digits, input as u128);
            let mut out = String::new();
            push_padded_left(&mut out, digits.as_str(), 9);
            assert(out@ =~= pad_left(decimal_text(input as nat), 9));
            out
        }
    }

    /// A 32-bit count, in nine characters.
    pub fn fmt_u32(input: u32) -> (out: String)
        ensures
            out@ == count_text(widen_count(input)),
    {
        if input == u32::MAX {
            Self::fmt_u64(u64::MAX)
        } else {
            Self::fmt_u64(input as u64)
        }
    }
}

} // verus!
