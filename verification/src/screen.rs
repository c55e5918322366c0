//! The parts of the screen: their places, their texts and their colors.

use crate::action;
use crate::action::{Action, ActionState, Progress, ProgressView};
use crate::binary;
use crate::binary::Binary;
use crate::format::{display_path, human_duration, human_rate, human_size, relative_display, Span};
use crate::path::{PartView, Platform, TreePath};
use crate::text;
use vstd::prelude::*;

verus! {

/// The width of a progress bar.
pub const BAR_WIDTH: usize = 10;

/// The color of a text.
#[derive(Clone, Copy, Debug, PartialEq, Eq, Structural)]
pub enum Tint {
    Plain,
    Blue,
    Cyan,
    DarkGray,
    Green,
    Magenta,
    Red,
    Yellow,
}

/// What is kept of the report of an action.
#[derive(Clone, Copy, Debug)]
pub struct Finished {
    pub reclaimed_bytes: u64,
    pub elapsed: Span,
    pub error_count: u64,
    pub skipped: bool,
}

/// The sums over all actions.
#[derive(Clone, Copy, Debug, PartialEq, Eq, Structural)]
pub struct Totals {
    pub known_bytes: u64,
    pub done_bytes: u64,
    pub completed: usize,
}

/// The bytes that the actions are known to have to reclaim.
pub open spec fn known_bytes(progress: Seq<Progress>) -> nat
    decreases progress.len(),
{
    if progress.len() == 0 {
        0
    } else {
        known_bytes(progress.drop_last()) + match progress.last()@.total {
            Some(total) => total as nat,
            None => 0,
        }
    }
}

/// The bytes that the actions have reclaimed.
pub open spec fn done_bytes(progress: Seq<Progress>) -> nat
    decreases progress.len(),
{
    if progress.len() == 0 {
        0
    } else {
        done_bytes(progress.drop_last()) + progress.last()@.done_bytes as nat
    }
}

/// How many actions are done.
pub open spec fn completed(progress: Seq<Progress>) -> nat
    decreases progress.len(),
{
    if progress.len() == 0 {
        0
    } else {
        completed(progress.drop_last()) + if progress.last()@.state == ActionState::Done {
            1nat
        } else {
            0nat
        }
    }
}

proof fn lemma_totals_grow(progress: Seq<Progress>, count: int)
    requires
        0 <= count <= progress.len(),
    ensures
        known_bytes(progress.take(count)) <= known_bytes(progress),
        done_bytes(progress.take(count)) <= done_bytes(progress),
    decreases progress.len() - count,
{
    if count < progress.len() {
        lemma_totals_grow(progress, count + 1);
        assert(progress.take(count + 1).drop_last() =~= progress.take(count));
    } else {
        assert(progress.take(count) =~= progress);
    }
}

/// Whether the sums over all actions can be held.
pub fn totals_fit(progress: &Vec<Progress>) -> (fit: bool)
    ensures
        fit == (known_bytes(progress@) <= u64::MAX && done_bytes(progress@) <= u64::MAX),
{
    let mut known: u64 = 0;
    let mut done: u64 = 0;
    let mut index: usize = 0;
    while index < progress.len()
        invariant
            index <= progress.len(),
            known == known_bytes(progress@.take(index as int)),
            done == done_bytes(progress@.take(index as int)),
        decreases progress.len() - index,
    {
        proof {
            assert(progress@.take(index + 1).drop_last() =~= progress@.take(index as int));
            assert(progress@.take(index + 1).last() == progress@[index as int]);
            lemma_totals_grow(progress@, index + 1);
        }
        let total: u64 = match progress[index].total() {
            Some(total) => total,
            None => 0,
        };
        if total > u64::MAX - known || progress[index].done_bytes() > u64::MAX - done {
            return false;
        }
        known = known + total;
        done = done + progress[index].done_bytes();
        index = index + 1;
    }
    assert(progress@.take(progress@.len() as int) =~= progress@);
    true
}

/// Sums up all actions.
pub fn totals(progress: &Vec<Progress>) -> (totals: Totals)
    requires
        known_bytes(progress@) <= u64::MAX,
        done_bytes(progress@) <= u64::MAX,
    ensures
        totals.known_bytes == known_bytes(progress@),
        totals.done_bytes == done_bytes(progress@),
        totals.completed == completed(progress@),
{
    let mut totals = Totals { known_bytes: 0, done_bytes: 0, completed: 0 };
    let mut index: usize = 0;
    while index < progress.len()
        invariant
            index <= progress.len(),
            known_bytes(progress@) <= u64::MAX,
            done_bytes(progress@) <= u64::MAX,
            totals.known_bytes == known_bytes(progress@.take(index as int)),
            totals.done_bytes == done_bytes(progress@.take(index as int)),
            totals.completed == completed(progress@.take(index as int)),
            totals.completed <= index,
        decreases progress.len() - index,
    {
        proof {
            assert(progress@.take(index + 1).drop_last() =~= progress@.take(index as int));
            assert(progress@.take(index + 1).last() == progress@[index as int]);
            lemma_totals_grow(progress@, index + 1);
        }
        totals.done_bytes = totals.done_bytes + progress[index].done_bytes();
        match progress[index].total() {
            Some(total) => {
                totals.known_bytes = totals.known_bytes + total;
            },
            None => {},
        }
        if progress[index].state() == ActionState::Done {
            totals.completed = totals.completed + 1;
        }
        index = index + 1;
    }
    assert(progress@.take(progress@.len() as int) =~= progress@);
    totals
}

/// The bytes since the rate was taken last, if that is long enough ago for the
/// rate to be taken anew: half a second at least.
pub fn bytes_to_rate(elapsed: Span, bytes: u64, last_bytes: u64) -> (gained: Option<u64>)
    ensures
        gained == (if elapsed.secs() == 0 && elapsed.nanos() < 500_000_000 {
            None
        } else if bytes > last_bytes {
            Some((bytes - last_bytes) as u64)
        } else {
            Some(0u64)
        }),
{
    if elapsed.is_below_half_a_second() {
        None
    } else {
        Some(bytes.saturating_sub(last_bytes))
    }
}

/// The bytes that are known to be left.
pub fn remaining_bytes(summary: &Totals) -> (bytes: u64)
    ensures
        bytes == (if summary.known_bytes > summary.done_bytes {
            summary.known_bytes - summary.done_bytes
        } else {
            0
        }),
{
    summary.known_bytes.saturating_sub(summary.done_bytes)
}

/// How many places of a bar are filled.
pub open spec fn filled(ratio: binary::Fraction) -> nat {
    let share = binary::at_most_one(ratio);
    let places = binary::nearest(share.num * 10, share.den);
    binary::half_up(places.num, places.den)
}

/// A bar that is filled in proportion.
pub open spec fn bar_text(ratio: binary::Fraction) -> Seq<char> {
    text::repeated('▓', filled(ratio)) + text::repeated('░', (BAR_WIDTH - filled(ratio)) as nat)
}

proof fn lemma_filled(ratio: binary::Fraction)
    requires
        binary::at_most_one(ratio).den > 0,
    ensures
        filled(ratio) <= BAR_WIDTH,
{
    let share = binary::at_most_one(ratio);
    binary::lemma_nearest_bound(share.num * 10, share.den, 10);
}

/// Draws a bar that is filled in proportion.
pub fn text_bar(ratio: &Binary) -> (bar: String)
    ensures
        bar@ == bar_text(ratio@),
{
    let share = ratio.at_most_one();
    proof {
        lemma_filled(ratio@);
        reveal_strlit("▓");
        reveal_strlit("░");
    }
    let filled: usize = share.times(10).round_up() as usize;
    let mut bar = String::new();
    text::append_repeated(&mut bar, "▓", filled);
    text::append_repeated(&mut bar, "░", BAR_WIDTH - filled);
    assert(bar@ =~= bar_text(ratio@));
    bar
}

/// A bar is as wide as any other, empty where nothing is done and full where
/// everything is, or more.
pub proof fn law_bars_have_one_width(ratio: binary::Fraction)
    requires
        ratio.den > 0,
    ensures
        bar_text(ratio).len() == BAR_WIDTH,
        ratio.num == 0 ==> bar_text(ratio) == text::repeated('░', BAR_WIDTH as nat),
        ratio.num >= ratio.den ==> bar_text(ratio) == text::repeated('▓', BAR_WIDTH as nat),
{
    lemma_filled(ratio);
    if ratio.num == 0 {
        binary::lemma_nearest_bound(0, ratio.den, 0);
        assert(bar_text(ratio) =~= text::repeated('░', BAR_WIDTH as nat));
    }
    if ratio.num >= ratio.den {
        let share = binary::at_most_one(ratio);
        assert(share.num * 10 < binary::TOP * share.den) by (nonlinear_arith)
            requires
                0 < share.num <= share.den,
        ;
        binary::lemma_nearest_floor(share.num * 10, share.den, 10);
        assert(bar_text(ratio) =~= text::repeated('▓', BAR_WIDTH as nat));
    }
}

/// A text with its color.
pub struct StatusView {
    pub text: Seq<char>,
    pub tint: Tint,
}

/// The share that is done, nothing where it is not known.
pub open spec fn known_ratio(progress: ProgressView) -> binary::Fraction {
    match action::ratio_of(progress) {
        Some(ratio) => ratio,
        None => binary::Fraction { num: 0, den: 1 },
    }
}

/// A share in whole percent.
pub open spec fn percent(ratio: binary::Fraction) -> nat {
    let scaled = binary::nearest(ratio.num * 100, ratio.den);
    binary::half_even(scaled.num, scaled.den)
}

/// What is shown of an action that has reported.
pub open spec fn finished_status(finished: Finished) -> StatusView {
    let text = text::aligned_right(crate::format::size_text(finished.reclaimed_bytes as nat), 9)
        + " in "@ + crate::format::duration_text(finished.elapsed.secs(), finished.elapsed.nanos());
    if finished.skipped {
        StatusView { text: "skipped (build running)"@, tint: Tint::Yellow }
    } else if finished.error_count > 0 {
        StatusView {
            text: text + "  ("@ + text::decimal(finished.error_count as nat) + " failed)"@,
            tint: Tint::Red,
        }
    } else {
        StatusView { text, tint: Tint::Green }
    }
}

/// What is shown of an action that has not reported.
pub open spec fn running_status(progress: ProgressView) -> StatusView {
    match progress.state {
        ActionState::Pending => StatusView { text: "pending"@, tint: Tint::DarkGray },
        ActionState::Waiting => StatusView { text: "waiting for overlap"@, tint: Tint::DarkGray },
        ActionState::Sizing => StatusView { text: "measuring…"@, tint: Tint::Blue },
        _ => {
            let ratio = known_ratio(progress);
            let total = match progress.total {
                Some(total) => total as nat,
                None => 0,
            };
            StatusView {
                text: bar_text(ratio) + " "@ + text::aligned_right(text::decimal(percent(ratio)), 3)
                    + "%  "@ + crate::format::size_text(progress.done_bytes as nat) + " / "@
                    + crate::format::size_text(total),
                tint: Tint::Cyan,
            }
        },
    }
}

/// What is shown of an action.
pub open spec fn status_of(finished: Option<Finished>, progress: ProgressView) -> StatusView {
    match finished {
        Some(finished) => finished_status(finished),
        None => running_status(progress),
    }
}

/// Shows how an action stands.
pub fn status_cell(finished: &Option<Finished>, progress: &Progress) -> (cell: (String, Tint))
    ensures
        cell.0@ == status_of(*finished, progress@).text,
        cell.1 == status_of(*finished, progress@).tint,
{
    match finished {
        Some(finished) => {
            if finished.skipped {
                return ("skipped (build running)".to_owned(), Tint::Yellow);
            }
            let mut text = text::align_right(human_size(finished.reclaimed_bytes).as_str(), 9);
            text.append(" in ");
            text.append(human_duration(finished.elapsed).as_str());
            if finished.error_count > 0 {
                text.append("  (");
                text.append(text::decimal_text(finished.error_count as u128).as_str());
                text.append(" failed)");
                return (text, Tint::Red);
            }
            (text, Tint::Green)
        },
        None => match progress.state() {
            ActionState::Pending => ("pending".to_owned(), Tint::DarkGray),
            ActionState::Waiting => ("waiting for overlap".to_owned(), Tint::DarkGray),
            ActionState::Sizing => ("measuring…".to_owned(), Tint::Blue),
            _ => {
                let ratio = match progress.ratio() {
                    Some(ratio) => ratio,
                    None => Binary::zero(),
                };
                let total: u64 = match progress.total() {
                    Some(total) => total,
                    None => 0,
                };
                let mut text = text_bar(&ratio);
                text.append(" ");
                let share: u128 = ratio.times(100).round_even();
                text.append(text::align_right(text::decimal_text(share).as_str(), 3).as_str());
                text.append("%  ");
                text.append(human_size(progress.done_bytes()).as_str());
                text.append(" / ");
                text.append(human_size(total).as_str());
                (text, Tint::Cyan)
            },
        },
    }
}

/// A text on the screen.
#[derive(Debug)]
pub struct Piece {
    pub text: String,
    pub tint: Tint,
    pub bold: bool,
}

/// A text on the screen, as a value.
pub struct PieceView {
    pub text: Seq<char>,
    pub tint: Tint,
    pub bold: bool,
}

impl View for Piece {
    type V = PieceView;

    open spec fn view(&self) -> PieceView {
        PieceView { text: self.text@, tint: self.tint, bold: self.bold }
    }
}

/// The head of the screen.
#[derive(Debug)]
pub struct Header {
    pub title: String,
    pub line: Vec<Piece>,
}

/// The title of the screen.
pub open spec fn title_text(
    cancelling: bool,
    root: Seq<PartView>,
    platform: Platform,
) -> Seq<char> {
    if cancelling {
        " rclean — cancelling "@
    } else {
        " rclean — "@ + crate::format::display_text(root, platform) + " "@
    }
}

/// The line below the title.
pub open spec fn header_line(
    action_count: nat,
    summary: Totals,
    elapsed: Span,
) -> Seq<PieceView> {
    seq![
        PieceView {
            text: text::decimal(summary.completed as nat) + "/"@ + text::decimal(action_count),
            tint: Tint::Cyan,
            bold: true,
        },
        PieceView { text: " actions · "@, tint: Tint::Plain, bold: false },
        PieceView {
            text: crate::format::size_text(summary.known_bytes as nat),
            tint: Tint::Yellow,
            bold: false,
        },
        PieceView { text: " found · "@, tint: Tint::Plain, bold: false },
        PieceView {
            text: crate::format::size_text(summary.done_bytes as nat),
            tint: Tint::Green,
            bold: true,
        },
        PieceView { text: " reclaimed · "@, tint: Tint::Plain, bold: false },
        PieceView {
            text: crate::format::duration_text(elapsed.secs(), elapsed.nanos()),
            tint: Tint::Plain,
            bold: false,
        },
        PieceView { text: "   (q quit · ↑↓ scroll)"@, tint: Tint::DarkGray, bold: false },
    ]
}

/// The values of the texts of a line.
pub open spec fn pieces(line: Seq<Piece>) -> Seq<PieceView> {
    line.map_values(|piece: Piece| piece@)
}

/// Draws the head of the screen.
pub fn draw_header(
    root: &TreePath,
    platform: Platform,
    action_count: usize,
    summary: &Totals,
    cancelling: bool,
    elapsed: Span,
) -> (header: Header)
    ensures
        header.title@ == title_text(cancelling, root@, platform),
        pieces(header.line@) == header_line(action_count as nat, *summary, elapsed),
{
    let title = if cancelling {
        " rclean — cancelling ".to_owned()
    } else {
        let mut title = " rclean — ".to_owned();
        title.append(display_path(root, platform).as_str());
        title.append(" ");
        title
    };
    let mut counts = text::decimal_text(summary.completed as u128);
    counts.append("/");
    counts.append(text::decimal_text(action_count as u128).as_str());
    let mut line: Vec<Piece> = Vec::new();
    line.push(Piece { text: counts, tint: Tint::Cyan, bold: true });
    line.push(Piece { text: " actions · ".to_owned(), tint: Tint::Plain, bold: false });
    line.push(Piece { text: human_size(summary.known_bytes), tint: Tint::Yellow, bold: false });
    line.push(Piece { text: " found · ".to_owned(), tint: Tint::Plain, bold: false });
    line.push(Piece { text: human_size(summary.done_bytes), tint: Tint::Green, bold: true });
    line.push(Piece { text: " reclaimed · ".to_owned(), tint: Tint::Plain, bold: false });
    line.push(Piece { text: human_duration(elapsed), tint: Tint::Plain, bold: false });
    line.push(
        Piece { text: "   (q quit · ↑↓ scroll)".to_owned(), tint: Tint::DarkGray, bold: false },
    );
    assert(pieces(line@) =~= header_line(action_count as nat, *summary, elapsed));
    Header { title, line }
}

/// The row of an action.
#[derive(Debug)]
pub struct ActionRow {
    pub label: String,
    pub path: String,
    pub status: String,
    pub tint: Tint,
}

/// The row of an action, as a value.
pub struct ActionRowView {
    pub label: Seq<char>,
    pub path: Seq<char>,
    pub status: Seq<char>,
    pub tint: Tint,
}

impl View for ActionRow {
    type V = ActionRowView;

    open spec fn view(&self) -> ActionRowView {
        ActionRowView {
            label: self.label@,
            path: self.path@,
            status: self.status@,
            tint: self.tint,
        }
    }
}

/// The row of an action.
pub open spec fn row_of(
    action: action::ActionView,
    finished: Option<Finished>,
    progress: ProgressView,
    root: Seq<PartView>,
    platform: Platform,
) -> ActionRowView {
    ActionRowView {
        label: action::label_text(action.kind),
        path: crate::format::relative_text(action.path, root, platform),
        status: status_of(finished, progress).text,
        tint: status_of(finished, progress).tint,
    }
}

/// Draws the row of an action.
pub fn draw_row(
    action: &Action,
    finished: &Option<Finished>,
    progress: &Progress,
    root: &TreePath,
    platform: Platform,
) -> (row: ActionRow)
    ensures
        row@ == row_of(action@, *finished, progress@, root@, platform),
{
    let (status, tint) = status_cell(finished, progress);
    ActionRow {
        label: action.kind.label().to_owned(),
        path: relative_display(&action.path, root, platform),
        status,
        tint,
    }
}

/// The foot of the screen.
#[derive(Debug)]
pub struct Footer {
    pub title: String,
    pub ratio: Binary,
    pub label: String,
}

/// The share of all known work that is done.
pub open spec fn overall(summary: Totals) -> binary::Fraction {
    if summary.known_bytes == 0 {
        binary::Fraction { num: 0, den: 1 }
    } else {
        binary::at_most_one(
            binary::quotient(summary.done_bytes as nat, summary.known_bytes as nat),
        )
    }
}

/// The text for the time that is left; a dash where it is not known.
pub open spec fn eta_text(eta: Option<Span>) -> Seq<char> {
    match eta {
        Some(eta) => crate::format::duration_text(eta.secs(), eta.nanos()),
        None => "—"@,
    }
}

/// The text of the foot.
pub open spec fn footer_label(summary: Totals, rate: Option<u64>, eta: Option<Span>) -> Seq<char> {
    text::decimal(percent(overall(summary))) + "%  ·  "@ + crate::format::rate_text(rate)
        + "  ·  eta "@ + eta_text(eta)
}

/// Draws the foot of the screen.
pub fn draw_footer(summary: &Totals, rate: Option<u64>, eta: Option<Span>) -> (footer: Footer)
    ensures
        footer.title@ == " overall "@,
        footer.ratio@ == overall(*summary),
        footer.label@ == footer_label(*summary, rate, eta),
{
    let ratio = if summary.known_bytes == 0 {
        Binary::zero()
    } else {
        Binary::quotient(summary.done_bytes, summary.known_bytes).at_most_one()
    };
    let mut label = text::decimal_text(ratio.times(100).round_even());
    label.append("%  ·  ");
    label.append(human_rate(rate).as_str());
    label.append("  ·  eta ");
    match eta {
        Some(eta) => label.append(human_duration(eta).as_str()),
        None => label.append("—"),
    }
    Footer { title: " overall ".to_owned(), ratio, label }
}

/// A share is never shown as more than a hundred percent, and everything is
/// shown as a hundred percent.
pub proof fn law_shares_are_shown_in_percent(summary: Totals, progress: ProgressView)
    ensures
        percent(overall(summary)) <= 100,
        percent(known_ratio(progress)) <= 100,
        summary.known_bytes > 0 && summary.done_bytes == summary.known_bytes ==> percent(
            overall(summary),
        ) == 100,
{
    if summary.known_bytes > 0 {
        binary::lemma_quotient_of_counts(summary.done_bytes as nat, summary.known_bytes as nat);
    }
    lemma_percent(overall(summary));
    match progress.total {
        Some(total) => {
            if total > 0 {
                binary::lemma_quotient_of_counts(progress.done_bytes as nat, total as nat);
            }
        },
        None => {},
    }
    lemma_percent(known_ratio(progress));
}

proof fn lemma_percent(ratio: binary::Fraction)
    requires
        ratio.den > 0,
        ratio.num <= ratio.den,
    ensures
        percent(ratio) <= 100,
        ratio.num == ratio.den ==> percent(ratio) == 100,
{
    binary::lemma_nearest_bound(ratio.num * 100, ratio.den, 100);
    if ratio.num == ratio.den {
        assert(ratio.num * 100 < binary::TOP * ratio.den) by (nonlinear_arith)
            requires
                0 < ratio.num <= ratio.den,
        ;
        binary::lemma_nearest_floor(ratio.num * 100, ratio.den, 100);
    }
}

} // verus!
