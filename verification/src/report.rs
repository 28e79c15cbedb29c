//! Assembling the health report of a link group: the human-readable
//! rendering, and the sections that the caller chose.

use crate::display::pct_text;
use crate::links::count_healthy;
use crate::links::group_metrics;
use crate::links::healthy_count;
use crate::links::link_status;
use crate::links::link_views;
use crate::links::measure_group;
use crate::links::summary_of;
use crate::links::LinkFlags;
use crate::links::LinkStats;
use crate::links::LinkStatsView;
use crate::links::LinkStatus;
use crate::links::LinksSummary;
use crate::proxy_api::str_ms_text;
use crate::proxy_api::str_pct_text;
use crate::proxy_api::str_score_text;
use crate::proxy_api::ProxyApiImpl;
use crate::reading::Binary64;
use crate::reading::Reading;
use crate::stats::ServerStats;
use crate::stats::StatsSnapshot;
use crate::text::decimal_text;
use crate::text::pad_left;
use crate::text::pad_right;
use crate::text::push_decimal;
use crate::text::push_padded_left;
use crate::text::push_padded_right;
use vstd::prelude::*;

verus! {

/// One line of the summary: a label, a count right-justified in nine
/// characters, and a percentage that is always shown as zero.
pub open spec fn count_line(label: Seq<char>, count: u64) -> Seq<char> {
    label + pad_left(decimal_text(count as nat), 9) + "   ("@ + pad_left(
        pct_text(Reading::zero()),
        5,
    ) + " %)\n"@
}

/// The summary of the human-readable report.
pub open spec fn summary_block(status: Seq<char>, summary: LinksSummary) -> Seq<char> {
    "Multi-Link RPC status: "@ + status
        + "\n\nCummulative Request Stats\n-------------------------\n"@ + count_line(
        "Success first attempt "@,
        summary.success_on_first_attempt,
    ) + count_line("Success after retry   "@, summary.success_on_retry) + count_line(
        "Failure network down  "@,
        summary.fail_network_down,
    ) + count_line("Failure bad request   "@, summary.fail_bad_request) + count_line(
        "Failure others        "@,
        summary.fail_others,
    ) + "\n"@
}

/// A column of the table: `text` left-justified in `width` characters, and
/// what parts it from the next column.
pub open spec fn cell(text: Seq<char>, width: nat, gap: Seq<char>) -> Seq<char> {
    pad_right(text, width) + gap
}

/// The row of one server in the table of the human-readable report: its
/// alias, health score, load, response time and success rate, each read
/// back from the machine-readable metric and shown in a fixed column.
pub open spec fn link_row(link: LinkStatsView) -> Seq<char> {
    cell(link.alias, 20, "   "@) + cell(str_score_text(link.health_pct), 9, "  "@) + cell(
        str_pct_text(link.load_pct),
        9,
        " "@,
    ) + cell(str_ms_text(link.resp_time), 9, "     "@) + cell(
        str_pct_text(link.success_pct),
        9,
        "\n"@,
    )
}

/// The rows of `links`, in order.
pub open spec fn link_rows(links: Seq<LinkStatsView>) -> Seq<char>
    decreases links.len(),
{
    if links.len() == 0 {
        Seq::empty()
    } else {
        link_rows(links.drop_last()) + link_row(links.last())
    }
}

/// The table of the human-readable report: a heading and one row for each server.
pub open spec fn links_table(links: Seq<LinkStatsView>) -> Seq<char> {
    "alias                Health %    Load %    RespT ms   Success %\n---------------------------------------------------------------\n"@
        + link_rows(links)
}

/// The human-readable report: the summary and the table, each where chosen.
pub open spec fn display_text(
    flags: LinkFlags,
    status: Seq<char>,
    summary: LinksSummary,
    links: Seq<LinkStatsView>,
) -> Seq<char> {
    (if flags.summary {
        summary_block(status, summary)
    } else {
        Seq::empty()
    }) + (if flags.links {
        links_table(links)
    } else {
        Seq::empty()
    })
}

/// The health report of a link group.
#[derive(Debug)]
pub struct LinksResponse {
    pub status: String,
    pub summary: Option<LinksSummary>,
    pub links: Option<Vec<LinkStats>>,
    pub display: Option<String>,
    pub debug: Option<String>,
}

/// The content of a [`LinksResponse`].
pub struct LinksResponseView {
    pub status: Seq<char>,
    pub summary: Option<LinksSummary>,
    pub links: Option<Seq<LinkStatsView>>,
    pub display: Option<Seq<char>>,
    pub debug: Option<Seq<char>>,
}

impl View for LinksResponse {
    type V = LinksResponseView;

    open spec fn view(&self) -> LinksResponseView {
        LinksResponseView {
            status: self.status@,
            summary: self.summary,
            links: match self.links {
                Some(links) => Some(link_views(links@)),
                None => None,
            },
            display: match self.display {
                Some(text) => Some(text@),
                None => None,
            },
            debug: match self.debug {
                Some(text) => Some(text@),
                None => None,
            },
        }
    }
}

impl LinksResponse {
    /// A report without a status and without sections.
    pub fn new() -> (response: LinksResponse)
        ensures
            response@ == (LinksResponseView {
                status: Seq::empty(),
                summary: None,
                links: None,
                display: None,
                debug: None,
            }),
    {
        LinksResponse { status: String::new(), summary: None, links: None, display: None, debug: None }
    }
}

/// The report on a link group with the summed counters `all` and the
/// servers `servers`, with the sections that `flags` choose. The metrics
/// and the summary are included as data only where the data is chosen, and
/// `debug_out` only where the debug text is.
pub open spec fn report(
    all: ServerStats,
    servers: Seq<ServerStats>,
    flags: LinkFlags,
    debug_out: Seq<char>,
) -> LinksResponseView {
    let status = link_status(true, servers.len(), healthy_count(servers)).label();
    let summary = summary_of(all);
    let links = group_metrics(servers);
    LinksResponseView {
        status,
        summary: if flags.data && flags.summary {
            Some(summary)
        } else {
            None
        },
        links: if flags.data && flags.links {
            Some(links)
        } else {
            None
        },
        display: if flags.display {
            Some(display_text(flags, status, summary, links))
        } else {
            None
        },
        debug: if flags.debug {
            Some(debug_out)
        } else {
            None
        },
    }
}

/// Appends one line of the summary.
fn push_count_line(out: &mut String, label: &str, count: u64)
    ensures
        final(out)@ == old(out)@ + count_line(label@, count),
{
    out.append(label);
    let mut digits = String::new();
    push_decimal(&mut digits, count as u128);
    push_padded_left(out, digits.as_str(), 9);
    out.append("   (");
    let zero = ProxyApiImpl::fmt_f64_pct(Binary64::from_bits(0));
    assert(zero@ == pct_text(Reading::zero()));
    push_padded_left(out, zero.as_str(), 5);
    out.append(" %)\n");
    assert(out@ =~= old(out)@ + count_line(label@, count));
}

/// Renders the summary of the human-readable report.
pub fn render_summary(out: &mut String, status: &str, summary: &LinksSummary)
    ensures
        final(out)@ == old(out)@ + summary_block(status@, *summary),
{
    out.append("Multi-Link RPC status: ");
    out.append(status);
    out.append("\n\nCummulative Request Stats\n-------------------------\n");
    push_count_line(out, "Success first attempt ", summary.success_on_first_attempt);
    push_count_line(out, "Success after retry   ", summary.success_on_retry);
    push_count_line(out, "Failure network down  ", summary.fail_network_down);
    push_count_line(out, "Failure bad request   ", summary.fail_bad_request);
    push_count_line(out, "Failure others        ", summary.fail_others);
    out.append("\n");
    assert(out@ =~= old(out)@ + summary_block(status@, *summary));
}

/// Appends a column of the table.
fn push_cell(out: &mut String, text: &str, width: usize, gap: &str)
    ensures
        final(out)@ == old(out)@ + cell(text@, width as nat, gap@),
{
    push_padded_right(out, text, width);
    out.append(gap);
    assert(out@ =~= old(out)@ + cell(text@, width as nat, gap@));
}

/// Joining texts does not depend on how the joins are grouped.
proof fn lemma_join_assoc(a: Seq<char>, b: Seq<char>, c: Seq<char>)
    ensures
        (a + b) + c == a + (b + c),
{
    assert((a + b) + c =~= a + (b + c));
}

/// Appends the row of one server.
fn push_link_row(out: &mut String, link: &LinkStats)
    ensures
        final(out)@ == old(out)@ + link_row(link@),
{
    let ghost start = out@;
    push_cell(out, link.alias.as_str(), 20, "   ");
    let score = ProxyApiImpl::fmt_str_score(link.health_pct.as_str());
    push_cell(out, score.as_str(), 9, "  ");
    let load = ProxyApiImpl::fmt_str_pct(link.load_pct.as_str());
    push_cell(out, load.as_str(), 9, " ");
    let time = ProxyApiImpl::fmt_str_ms(link.resp_time.as_str());
    push_cell(out, time.as_str(), 9, "     ");
    let success = ProxyApiImpl::fmt_str_pct(link.success_pct.as_str());
    push_cell(out, success.as_str(), 9, "\n");
    proof {
        let c1 = cell(link.alias@, 20, "   "@);
        let c2 = cell(score@, 9, "  "@);
        let c3 = cell(load@, 9, " "@);
        let c4 = cell(time@, 9, "     "@);
        let c5 = cell(success@, 9, "\n"@);
        lemma_join_assoc(start, c1, c2);
        lemma_join_assoc(start, c1 + c2, c3);
        lemma_join_assoc(start, c1 + c2 + c3, c4);
        lemma_join_assoc(start, c1 + c2 + c3 + c4, c5);
    }
}

/// Renders the table of the human-readable report.
pub fn render_links(out: &mut String, links: &Vec<LinkStats>)
    ensures
        final(out)@ == old(out)@ + links_table(link_views(links@)),
{
    out.append(
        "alias                Health %    Load %    RespT ms   Success %\n---------------------------------------------------------------\n",
    );
    let ghost heading = out@;
    let mut i: usize = 0;
    proof {
        assert(link_views(links@.take(0)).len() == 0);
        assert(heading + link_rows(link_views(links@.take(0))) == heading);
    }
    while i < links.len()
        invariant
            i <= links.len(),
            out@ == heading + link_rows(link_views(links@.take(i as int))),
        decreases links.len() - i,
    {
        push_link_row(out, &links[i]);
        proof {
            let now = link_views(links@.take(i + 1));
            assert(now.drop_last() == link_views(links@.take(i as int)));
            assert(now.last() == links[i as int]@);
            assert(out@ =~= heading + link_rows(now));
        }
        i = i + 1;
    }
    proof {
        assert(links@.take(links.len() as int) == links@);
        assert(out@ =~= old(out)@ + links_table(link_views(links@)));
    }
}

/// Builds the report on the link group copied in `snapshot`, with the
/// sections that `flags` choose.
pub fn build_report(snapshot: &StatsSnapshot, flags: LinkFlags, debug_out: String) -> (response:
    LinksResponse)
    ensures
        response@ == report(
            snapshot.all_servers_stats,
            snapshot.target_servers_stats@,
            flags,
            debug_out@,
        ),
{
    let links = measure_group(&snapshot.target_servers_stats);
    let healthy = count_healthy(&snapshot.target_servers_stats);
    let summary = LinksSummary::from_stats(&snapshot.all_servers_stats);
    let status = LinkStatus::decide(true, links.len(), healthy);
    let mut response = LinksResponse::new();
    response.status = status.as_str().to_string();
    if flags.display {
        let mut text = String::new();
        if flags.summary {
            render_summary(&mut text, status.as_str(), &summary);
        }
        if flags.links {
            render_links(&mut text, &links);
        }
        proof {
            assert(text@ =~= display_text(
                flags,
                status.label(),
                summary,
                group_metrics(snapshot.target_servers_stats@),
            ));
        }
        response.display = Some(text);
    }
    if flags.debug {
        response.debug = Some(debug_out);
    }
    if flags.data {
        if flags.summary {
            response.summary = Some(summary);
        }
        if flags.links {
            response.links = Some(links);
        }
    }
    response
}

} // verus!
