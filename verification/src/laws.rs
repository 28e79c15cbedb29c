//! What holds of the renderings and of the report for every input.

use crate::display::ms_text;
use crate::display::one_decimal;
use crate::display::pct_text;
use crate::display::score_text;
use crate::display::lemma_under_ms_limit;
use crate::arith64::lemma_percent_is_nearest;
use crate::machine::machine_text;
use crate::nearest::nearest_bits;
use crate::sample::at_ms_limit;
use crate::sample::MS_LIMIT_SIGNIFICAND;
use vstd::arithmetic::power2::pow2;
use crate::reading::Binary64;
use crate::reading::EXPONENT_SPECIAL;
use crate::reading::SIGN_BIT;
use crate::links::group_metrics;
use crate::links::healthy_count;
use crate::links::link_status;
use crate::links::load_share;
use crate::links::total_requests;
use crate::links::LinkFlags;
use crate::links::LinkStatus;
use crate::proxy_api::count_text;
use crate::reading::Reading;
use crate::report::report;
use crate::rounding::lemma_round_by_value;
use crate::rounding::lemma_threshold_by_value;
use crate::rounding::round_half_even;
use crate::stats::ServerStats;
use crate::text::decimal_text;
use crate::text::lemma_decimal_text_len;
use crate::text::pad_left;
use vstd::arithmetic::div_mod::lemma_fundamental_div_mod;
use vstd::arithmetic::div_mod::lemma_fundamental_div_mod_converse;
use vstd::prelude::*;

verus! {

/// A fraction that lies from `lo` up to, but not at, `hi` is rounded to a
/// number from `lo` to `hi`.
pub proof fn lemma_round_bounds(a: nat, den: nat, lo: nat, hi: nat)
    requires
        den > 0,
        lo * den <= a < hi * den,
    ensures
        lo <= round_half_even(a, den) <= hi,
{
    let q = a / den;
    let r = a % den;
    lemma_fundamental_div_mod(a as int, den as int);
    assert(q >= lo) by (nonlinear_arith)
        requires
            lo * den <= den * q + r,
            r < den,
            den > 0,
    ;
    assert(q < hi) by (nonlinear_arith)
        requires
            den * q + r < hi * den,
            r >= 0,
            den > 0,
    ;
}

/// A percentage from a tenth up to, but not at, 100.001 is rounded to a
/// number of tenths from one to a thousand.
pub proof fn lemma_tenths_in_range(num: nat, den: nat)
    requires
        den > 0,
        den <= 10 * num,
        1000 * num < 100001 * den,
    ensures
        1 <= round_half_even(10 * num, den) <= 1000,
{
    lemma_round_bounds(10 * num, den, 1, 1001);
    if round_half_even(10 * num, den) == 1001 {
        lemma_fundamental_div_mod((10 * num) as int, den as int);
        let q = (10 * num) / den;
        let rem = (10 * num) % den;
        assert(q <= 1000) by (nonlinear_arith)
            requires
                den * q + rem < 1001 * den,
                rem >= 0,
                den > 0,
        ;
        assert(false) by (nonlinear_arith)
            requires
                q == 1000,
                10 * num == den * q + rem,
                1000 * num < 100001 * den,
                2 * rem >= den,
                den > 0,
        ;
    }
}

/// A value that is negative or not finite is shown as a dash where a
/// percentage is expected, and as nothing else.
pub proof fn lemma_pct_dash(r: Reading)
    requires
        !(r is Finite) || r.sign_negative(),
    ensures
        pct_text(r) == "    -"@,
{
}

/// A percentage of 100 or more is shown as `100.0`.
pub proof fn lemma_pct_full(num: nat, den: nat)
    requires
        den > 0,
        num >= 100 * den,
    ensures
        pct_text(Reading::fraction(num, den)) == "100.0"@,
{
    reveal_strlit("100.0");
    if !(1000 * num >= 100001 * den) {
        let a = 10 * num;
        let r = (a - 1000 * den) as nat;
        lemma_fundamental_div_mod_converse(a as int, den as int, 1000, r as int);
        assert(round_half_even(a, den) == 1000);
        reveal_with_fuel(decimal_text, 3);
        assert(one_decimal(1000) =~= "100.0"@);
    }
}

/// A negative time is shown as a dash, and so is one that is zero,
/// subnormal or not finite.
pub proof fn lemma_ms_dash(r: Reading)
    requires
        !(r is Finite) || r.sign_negative() || !r.is_normal(),
    ensures
        ms_text(r) == "      -"@,
{
}

/// A score that is not finite is shown as a dash in five characters, and a
/// score of zero as six blanks.
pub proof fn lemma_score_marks(r: Reading)
    ensures
        !(r is Finite) ==> score_text(r) == "    -"@,
        r is Finite && r->num == 0 ==> score_text(r) == "      "@,
{
}

/// Every percentage is shown in five characters.
pub proof fn lemma_pct_width(r: Reading)
    requires
        r.wf(),
    ensures
        pct_text(r).len() == 5,
{
    reveal_strlit("    -");
    reveal_strlit("  0.0");
    reveal_strlit(" <0.1");
    reveal_strlit("100.0");
    if let Reading::Finite { negative, num, den, .. } = r {
        if !negative && num != 0 && !(10 * num < den) && !(1000 * num >= 100001 * den) {
            let h = round_half_even(10 * num, den);
            lemma_tenths_in_range(num, den);
            lemma_decimal_text_len(h / 10);
        }
    }
}

/// Every time is shown in seven characters.
pub proof fn lemma_ms_width(r: Reading)
    requires
        r.wf(),
    ensures
        ms_text(r).len() == 7,
{
    reveal_strlit("      -");
    reveal_strlit(">10secs");
    reveal_strlit("  <0.01");
    if let Reading::Finite { negative, num, den, .. } = r {
        if !negative && r.is_normal() && !at_ms_limit(num, den) && !(100 * num < den) {
            let h = round_half_even(100 * num, den);
            lemma_under_ms_limit(num, den);
            lemma_round_bounds(100 * num, den, 1, 999999);
            lemma_decimal_text_len(h / 100);
        }
    }
}

/// Every finite score is shown in six characters, and every other score
/// in five.
pub proof fn lemma_score_width(r: Reading)
    requires
        r.wf(),
    ensures
        score_text(r).len() == (if r is Finite {
            6nat
        } else {
            5nat
        }),
{
    reveal_strlit("    -");
    reveal_strlit("      ");
    reveal_strlit("  <0.1");
    reveal_strlit("+100.0");
    reveal_strlit("  -0.1");
    reveal_strlit("-100.0");
    if let Reading::Finite { negative, num, den, .. } = r {
        if num != 0 && !(10 * num < den) {
            let h = round_half_even(10 * num, den);
            if !negative && !(1000 * num >= 100001 * den) {
                lemma_tenths_in_range(num, den);
                lemma_decimal_text_len(h / 10);
            } else if negative && !(num >= 100 * den) {
                lemma_round_bounds(10 * num, den, 1, 1000);
                lemma_decimal_text_len(h / 10);
            }
        }
    }
}

/// Every count is shown in nine characters.
pub proof fn lemma_count_width(n: u64)
    ensures
        count_text(n).len() == 9,
{
    reveal_strlit("        -");
    reveal_strlit(">99999999");
    lemma_decimal_text_len(n as nat);
}

/// The sum of the numerators of the load shares of `servers`: each share
/// is that numerator over the total of requests.
pub open spec fn load_numerators(servers: Seq<ServerStats>) -> nat
    decreases servers.len(),
{
    if servers.len() == 0 {
        0
    } else {
        load_numerators(servers.drop_last()) + 100 * servers.last().requests as nat
    }
}

/// The exact load shares of the servers of a group add up to one hundred
/// percent: each is a fraction over the total of requests, and the
/// numerators add up to a hundred times that total.
pub proof fn lemma_load_shares_sum(servers: Seq<ServerStats>)
    ensures
        load_numerators(servers) == 100 * total_requests(servers),
        forall|i: int|
            0 <= i < servers.len() ==> #[trigger] load_share(
                servers[i],
                total_requests(servers),
            ) == Reading::fraction(100 * servers[i].requests as nat, total_requests(servers)),
    decreases servers.len(),
{
    if servers.len() > 0 {
        lemma_load_shares_sum(servers.drop_last());
    }
}

/// The load that is reported for a server is the binary64 value nearest to
/// its exact share, in plain decimal text, wherever binary64 holds the
/// total of requests and a hundred times the requests of the server
/// exactly: each load is then within half a unit in the last place of a
/// share, and the shares add up to one hundred percent.
pub proof fn lemma_load_is_nearest_share(servers: Seq<ServerStats>, i: int)
    requires
        0 <= i < servers.len(),
        0 < total_requests(servers) < pow2(53),
        100 * servers[i].requests < pow2(53),
    ensures
        group_metrics(servers)[i].load_pct == machine_text(
            (Binary64 {
                bits: nearest_bits(
                    100 * servers[i].requests as nat,
                    total_requests(servers),
                ) as u64,
            })@,
        ),
        load_share(servers[i], total_requests(servers)) == Reading::fraction(
            100 * servers[i].requests as nat,
            total_requests(servers),
        ),
        load_numerators(servers) == 100 * total_requests(servers),
{
    lemma_load_shares_sum(servers);
    lemma_percent_is_nearest(servers[i].requests as nat, total_requests(servers));
}

/// The metrics of a report stand in the order of the servers: there is one
/// for each server, under the alias of that server, whatever the counters hold.
pub proof fn lemma_links_aligned(servers: Seq<ServerStats>)
    ensures
        group_metrics(servers).len() == servers.len(),
        forall|i: int|
            0 <= i < servers.len() ==> (#[trigger] group_metrics(servers)[i]).alias
                == servers[i].alias@,
{
}

/// The state of a link group that was found is never `DISABLED`, and it
/// is one of the four other states.
pub proof fn lemma_found_group_is_not_disabled(server_count: nat, healthy_count: nat)
    ensures
        link_status(true, server_count, healthy_count) != LinkStatus::Disabled,
        link_status(true, server_count, healthy_count).label() != "DISABLED"@,
        link_status(false, server_count, healthy_count) == LinkStatus::Disabled,
{
    reveal_strlit("DISABLED");
    reveal_strlit("NO CONFIG");
    reveal_strlit("DOWN");
    reveal_strlit("DEGRADED");
    reveal_strlit("OK");
    let status = link_status(true, server_count, healthy_count);
    assert("DISABLED"@.len() == 8);
    assert("NO CONFIG"@.len() == 9);
    assert("DOWN"@.len() == 4);
    assert("OK"@.len() == 2);
    assert("DEGRADED"@[1] == 'E');
    assert("DISABLED"@[1] == 'I');
}

/// A report never carries the state `DISABLED`.
pub proof fn lemma_report_is_not_disabled(
    all: ServerStats,
    servers: Seq<ServerStats>,
    flags: LinkFlags,
    debug_out: Seq<char>,
)
    ensures
        report(all, servers, flags, debug_out).status != "DISABLED"@,
{
    lemma_found_group_is_not_disabled(servers.len(), healthy_count(servers));
}

/// The state of a group is in order exactly when more than half of its
/// servers, counted in whole percent, are healthy; with no more than that,
/// but one healthy server at least, it is degraded.
pub proof fn lemma_status_by_majority(server_count: nat, healthy_count: nat)
    requires
        server_count > 0,
        healthy_count > 0,
    ensures
        link_status(true, server_count, healthy_count) == LinkStatus::Okay <==> healthy_count * 100
            >= 51 * server_count,
        link_status(true, server_count, healthy_count) == LinkStatus::Degraded <==> healthy_count
            * 100 < 51 * server_count,
{
    let a = healthy_count * 100;
    lemma_fundamental_div_mod(a as int, server_count as int);
    let q = a / server_count;
    let r = a % server_count;
    if q > 50 {
        assert(server_count * q >= 51 * server_count) by (nonlinear_arith)
            requires
                q >= 51,
                server_count > 0,
        ;
    } else {
        assert(server_count * q + server_count <= 51 * server_count) by (nonlinear_arith)
            requires
                q + 1 <= 51,
                server_count > 0,
        ;
    }
}

/// A bit pattern with the sign bit set, or with the exponent of the values
/// that are not finite, is shown as a dash where a percentage is expected.
pub proof fn lemma_binary64_pct_dash(value: Binary64)
    requires
        value.bits >= SIGN_BIT || value.exponent_field() == EXPONENT_SPECIAL,
    ensures
        pct_text(value@) == "    -"@,
{
}

/// What is shown for a percentage is a dash, the mark of a value under a
/// tenth, or a number of tenths from zero to a hundred: nothing above one
/// hundred percent is ever shown.
pub proof fn lemma_pct_in_range(r: Reading)
    requires
        r.wf(),
    ensures
        pct_text(r) == "    -"@ || pct_text(r) == " <0.1"@ || exists|tenths: nat|
            tenths <= 1000 && pct_text(r) == pad_left(#[trigger] one_decimal(tenths), 5),
{
    if let Reading::Finite { negative, num, den, .. } = r {
        if !negative {
            if num == 0 {
                reveal_strlit("  0.0");
                reveal_with_fuel(decimal_text, 2);
                assert(pad_left(one_decimal(0), 5) =~= "  0.0"@);
            } else if 10 * num < den {
            } else if 1000 * num >= 100001 * den {
                reveal_strlit("100.0");
                reveal_with_fuel(decimal_text, 3);
                assert(pad_left(one_decimal(1000), 5) =~= "100.0"@);
            } else {
                let h = round_half_even(10 * num, den);
                lemma_tenths_in_range(num, den);
                assert(pct_text(r) == pad_left(one_decimal(h), 5));
            }
        }
    }
}

/// Whether two finite readings have one sign, one class and one value,
/// whatever fractions they are written as.
pub open spec fn same_value(a: Reading, b: Reading) -> bool {
    match (a, b) {
        (
            Reading::Finite { negative: na, subnormal: sa, num: xa, den: da },
            Reading::Finite { negative: nb, subnormal: sb, num: xb, den: db },
        ) => na == nb && sa == sb && xa * db == xb * da,
        _ => false,
    }
}

/// Every rendering goes by the value alone, whatever fraction the value is
/// written as.
pub proof fn lemma_rendering_by_value(a: Reading, b: Reading)
    requires
        a.wf(),
        b.wf(),
        same_value(a, b),
    ensures
        pct_text(a) == pct_text(b),
        ms_text(a) == ms_text(b),
        score_text(a) == score_text(b),
        machine_text(a) == machine_text(b),
{
    let (xa, da) = (a->num, a->den);
    let (xb, db) = (b->num, b->den);
    lemma_threshold_by_value(xa, da, xb, db, 10, 1);
    lemma_threshold_by_value(xa, da, xb, db, 100, 1);
    lemma_threshold_by_value(xa, da, xb, db, 1000, 100001);
    lemma_threshold_by_value(xa, da, xb, db, pow2(39), MS_LIMIT_SIGNIFICAND as nat);
    assert(xa * pow2(39) == pow2(39) * xa && xb * pow2(39) == pow2(39) * xb) by (nonlinear_arith);
    lemma_threshold_by_value(xa, da, xb, db, 1, 100);
    assert(xa == 0 <==> xb == 0) by (nonlinear_arith)
        requires
            xa * db == xb * da,
            da > 0,
            db > 0,
    ;
    assert((10 * xa) * db == (10 * xb) * da && (100 * xa) * db == (100 * xb) * da)
        by (nonlinear_arith)
        requires
            xa * db == xb * da,
    ;
    lemma_round_by_value(10 * xa, da, 10 * xb, db);
    lemma_round_by_value(100 * xa, da, 100 * xb, db);
}

} // verus!
