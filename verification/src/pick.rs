//! Choosing one of the senders that were found on the local network.
use vstd::prelude::*;
use crate::addr;
use crate::addr::AddrView;
use crate::beacon;
use crate::beacon::{DiscoveredSender, SenderView};
use crate::outside;
use crate::text;

verus! {

broadcast use vstd::seq::group_seq_axioms;

/// How long the receiver listens for senders, in seconds.
pub const SCAN_SECS: u64 = 5;

/// Where a sender is, as it is shown: its first address without the port.
pub open spec fn origin(addrs: Seq<AddrView>) -> Seq<char> {
    if addrs.len() > 0 {
        addr::ip_text(addrs[0])
    } else {
        "?"@
    }
}

/// A sender as it is shown, in three parts; the name is the second.
#[derive(Debug)]
pub struct SenderLine {
    /// What comes before the name.
    pub before: String,
    /// The name of what it shares.
    pub name: String,
    /// What comes after the name.
    pub after: String,
}

/// What a [`SenderLine`] holds.
#[verifier::ext_equal]
pub struct SenderLineView {
    /// What comes before the name.
    pub before: Seq<char>,
    /// The name of what it shares.
    pub name: Seq<char>,
    /// What comes after the name.
    pub after: Seq<char>,
}

impl View for SenderLine {
    type V = SenderLineView;

    open spec fn view(&self) -> SenderLineView {
        SenderLineView { before: self.before@, name: self.name@, after: self.after@ }
    }
}

/// The views of a sequence of lines.
pub open spec fn line_views(v: Seq<SenderLine>) -> Seq<SenderLineView> {
    v.map_values(|l: SenderLine| l@)
}

/// The line for a sender, where `size` is the size as it is shown.
pub open spec fn sender_line(before: Seq<char>, s: SenderView, size: Seq<char>) -> SenderLineView {
    SenderLineView {
        before,
        name: s.name,
        after: " ("@ + size + ") from "@ + origin(s.addrs),
    }
}

/// The line for the only sender.
pub open spec fn found_line(s: SenderView, size: Seq<char>) -> SenderLineView {
    sender_line("found "@, s, size)
}

/// The line for the sender at a place in the list, counted from one.
pub open spec fn listed_line(place: nat, s: SenderView, size: Seq<char>) -> SenderLineView {
    sender_line("  ["@ + text::decimal(place) + "] "@, s, size)
}

/// What the receiver does with the senders that were found.
#[derive(Debug)]
pub enum Choice {
    /// There are none: it fails, with a message.
    Nobody(String),
    /// There is one: it is taken, and its line is printed.
    Only(SenderLine),
    /// There are several: they are listed, and the user is asked.
    Ask { lines: Vec<SenderLine>, prompt: String },
}

/// What a [`Choice`] holds.
pub enum ChoiceView {
    /// There are none: it fails, with a message.
    Nobody(Seq<char>),
    /// There is one: it is taken, and its line is printed.
    Only(SenderLineView),
    /// There are several: they are listed, and the user is asked.
    Ask { lines: Seq<SenderLineView>, prompt: Seq<char> },
}

impl View for Choice {
    type V = ChoiceView;

    open spec fn view(&self) -> ChoiceView {
        match self {
            Choice::Nobody(s) => ChoiceView::Nobody(s@),
            Choice::Only(l) => ChoiceView::Only(l@),
            Choice::Ask { lines, prompt } => ChoiceView::Ask {
                lines: line_views(lines@),
                prompt: prompt@,
            },
        }
    }
}

/// What the receiver does with the senders that were found, where `sizes` are the sizes of what
/// they share as they are shown.
pub open spec fn choice(senders: Seq<SenderView>, sizes: Seq<Seq<char>>) -> ChoiceView {
    if senders.len() == 0 {
        ChoiceView::Nobody(
            "no senders found on the local network (is someone running `dshe send` on this network?)"@,
        )
    } else if senders.len() == 1 {
        ChoiceView::Only(found_line(senders[0], sizes[0]))
    } else {
        ChoiceView::Ask {
            lines: Seq::new(
                senders.len(),
                |i: int| listed_line((i + 1) as nat, senders[i], sizes[i]),
            ),
            prompt: "pick a sender (1-"@ + text::decimal(senders.len()) + "): "@,
        }
    }
}

fn write_line(before: String, s: &DiscoveredSender, size: &str) -> (r: SenderLine)
    ensures
        r@ == sender_line(before@, s@, size@),
{
    let from = if s.addrs.len() > 0 {
        assert(beacon::addr_views(s.addrs@)[0] == s.addrs@[0]@);
        s.addrs[0].ip_string()
    } else {
        "?".to_string()
    };
    let mut after = " (".to_string();
    after.append(size);
    after.append(") from ");
    after.append(from.as_str());
    SenderLine { before, name: s.name.as_str().to_string(), after }
}

/// What the receiver does with the senders that were found, where `sizes` are the sizes of what
/// they share as they are shown.
pub fn choose_of(senders: &[DiscoveredSender], sizes: &[String]) -> (r: Choice)
    requires
        sizes@.len() == senders@.len(),
    ensures
        r@ == choice(beacon::sender_views(senders@), text::texts(sizes@)),
{
    let ghost all = beacon::sender_views(senders@);
    let ghost shown = text::texts(sizes@);
    if senders.len() == 0 {
        return Choice::Nobody(
            "no senders found on the local network (is someone running `dshe send` on this network?)".to_string(),
        );
    }
    assert(all[0] == senders@[0]@ && shown[0] == sizes@[0]@);
    if senders.len() == 1 {
        return Choice::Only(
            write_line("found ".to_string(), &senders[0], sizes[0].as_str()),
        );
    }
    let mut lines: Vec<SenderLine> = Vec::new();
    for i in 0..senders.len()
        invariant
            sizes@.len() == senders@.len(),
            all == beacon::sender_views(senders@),
            shown == text::texts(sizes@),
            lines@.len() == i,
            forall|j: int|
                0 <= j < i ==> (#[trigger] lines@[j])@ == listed_line(
                    (j + 1) as nat,
                    all[j],
                    shown[j],
                ),
    {
        assert(all[i as int] == senders@[i as int]@ && shown[i as int] == sizes@[i as int]@);
        let mut before = "  [".to_string();
        before.append(text::decimal_string(i as u64 + 1).as_str());
        before.append("] ");
        lines.push(write_line(before, &senders[i], sizes[i].as_str()));
    }
    let mut prompt = "pick a sender (1-".to_string();
    prompt.append(text::decimal_string(senders.len() as u64).as_str());
    prompt.append("): ");
    let r = Choice::Ask { lines, prompt };
    assert(r@->lines =~= choice(all, shown)->lines);
    r
}

/// The sizes of what the senders share, as they are shown.
pub open spec fn shown_sizes(senders: Seq<SenderView>) -> Seq<Seq<char>> {
    senders.map_values(|s: SenderView| outside::human_bytes_text(s.size))
}

/// What the receiver does with the senders that were found: it fails where there are none, takes
/// the only one, or asks which of several.
pub fn choose_sender(senders: &[DiscoveredSender]) -> (r: Choice)
    ensures
        r@ == choice(
            beacon::sender_views(senders@),
            shown_sizes(beacon::sender_views(senders@)),
        ),
{
    let ghost all = beacon::sender_views(senders@);
    let mut sizes: Vec<String> = Vec::new();
    for i in 0..senders.len()
        invariant
            all == beacon::sender_views(senders@),
            text::texts(sizes@) == shown_sizes(all).take(i as int),
    {
        let ghost before = sizes@;
        sizes.push(outside::human_bytes(senders[i].size));
        assert(text::texts(sizes@) =~= text::texts(before).push(shown_sizes(all)[i as int]));
        assert(shown_sizes(all).take(i + 1) =~= shown_sizes(all).take(i as int).push(
            shown_sizes(all)[i as int],
        ));
    }
    assert(shown_sizes(all).take(all.len() as int) =~= shown_sizes(all));
    assert(text::texts(sizes@).len() == sizes@.len());
    choose_of(senders, sizes.as_slice())
}

/// The place in the list that a line names: a number from one up to the number of senders, with
/// white space around it.
pub open spec fn picked(line: Seq<char>, senders: nat) -> Option<nat> {
    match text::unsigned(text::trim(line), usize::MAX as nat) {
        Some(n) => if 1 <= n <= senders {
            Some((n - 1) as nat)
        } else {
            None
        },
        None => None,
    }
}

/// Reads which sender the user picks, counted from zero. It fails, with a message, where the line
/// names none.
pub fn read_pick(line: &str, senders: usize) -> (r: Result<usize, String>)
    ensures
        r matches Ok(i) ==> picked(line@, senders as nat) == Some(i as nat) && i < senders,
        r matches Err(e) ==> picked(line@, senders as nat) is None && e@ == "invalid pick"@,
{
    let chars = text::chars_of(line);
    let trimmed = text::trim_chars(chars.as_slice());
    match text::read_unsigned(trimmed.as_slice(), usize::MAX as u64) {
        Some(n) => if 1 <= n && n <= senders as u64 {
            return Ok((n - 1) as usize);
        },
        None => {},
    }
    Err("invalid pick".to_string())
}

proof fn lemma_digit_not_white(c: char)
    requires
        text::digit(c, 10) is Some,
    ensures
        !text::is_white_space(c),
        c != '+',
{
}

/// Every sender that is listed can be picked by the number in front of it.
pub proof fn law_listed_sender_can_be_picked(i: nat, senders: nat)
    requires
        i < senders <= usize::MAX,
    ensures
        picked(text::decimal((i + 1) as nat), senders) == Some(i),
        picked(text::decimal((i + 1) as nat).push('\n'), senders) == Some(i),
{
    let t = text::decimal((i + 1) as nat);
    text::lemma_number_text((i + 1) as nat, 10);
    lemma_digit_not_white(t[0]);
    lemma_digit_not_white(t[t.len() - 1]);
    assert(text::trim(t) == t);
    let line = t.push('\n');
    assert(line[0] == t[0]);
    assert(line.drop_last() =~= t);
    assert(text::trim(line) == t) by {
        reveal_with_fuel(text::trim, 2);
        assert(text::is_white_space('\n'));
    }
}

/// A pick is the number in front of a sender, and no other: zero, a number beyond the list and what
/// is no number pick nobody. White space around the number does not count.
pub proof fn law_pick(
    before: Seq<char>,
    k: nat,
    after: Seq<char>,
    senders: nat,
    line: Seq<char>,
    at: int,
)
    requires
        forall|i: int| 0 <= i < before.len() ==> text::is_white_space(#[trigger] before[i]),
        forall|i: int| 0 <= i < after.len() ==> text::is_white_space(#[trigger] after[i]),
        senders <= usize::MAX,
    ensures
        1 <= k <= senders ==> picked(before + text::decimal(k) + after, senders) == Some(
            (k - 1) as nat,
        ),
        k == 0 || k > senders ==> picked(before + text::decimal(k) + after, senders) is None,
        picked(before + after, senders) is None,
        picked(line, senders) matches Some(i) ==> i < senders,
        text::is_trimmed(line) && 0 <= at < line.len() && !('0' <= line[at] <= '9') && !(at == 0
            && line[at] == '+') ==> picked(line, senders) is None,
{
    let t = text::decimal(k);
    text::lemma_number_text(k, 10);
    lemma_digit_not_white(t[0]);
    lemma_digit_not_white(t[t.len() - 1]);
    text::law_trim(before, t, after);
    text::law_unsigned(k, usize::MAX as nat, line, at);
    let none = Seq::<char>::empty();
    text::law_trim(before, none, after);
    assert(before + none + after =~= before + after);
    if text::is_trimmed(line) {
        text::lemma_trim_trimmed(line);
    }
}

/// Nobody is taken where nobody was found, the only sender is taken without a question, and of
/// several each is listed, in order, under its number, with the name and the size of what it shares
/// and the first of its addresses.
pub proof fn law_choice(senders: Seq<SenderView>, sizes: Seq<Seq<char>>)
    requires
        sizes.len() == senders.len(),
    ensures
        choice(senders, sizes) is Nobody <==> senders.len() == 0,
        senders.len() == 1 ==> (choice(senders, sizes) matches ChoiceView::Only(l) && l.before
            == "found "@ && l.name == senders[0].name && l.after == " ("@ + sizes[0] + ") from "@ + origin(
            senders[0].addrs,
        )),
        senders.len() > 1 ==> (choice(senders, sizes) matches ChoiceView::Ask { lines, prompt } && {
            &&& lines.len() == senders.len()
            &&& forall|i: int|
                0 <= i < senders.len() ==> {
                    &&& (#[trigger] lines[i]).before == "  ["@ + text::decimal((i + 1) as nat)
                        + "] "@
                    &&& lines[i].name == senders[i].name
                    &&& lines[i].after == " ("@ + sizes[i] + ") from "@ + origin(senders[i].addrs)
                }
            &&& prompt == "pick a sender (1-"@ + text::decimal(senders.len()) + "): "@
        }),
{
}

/// A sender is shown where its first address is, and without an address nowhere.
pub proof fn law_origin(first: AddrView, more: Seq<AddrView>)
    ensures
        origin(seq![first] + more) == addr::ip_text(first),
        origin(Seq::empty()) == "?"@,
{
    assert((seq![first] + more)[0] == first);
}

/// Each sender is shown with the size of what it shares itself.
pub proof fn law_shown_sizes(senders: Seq<SenderView>, i: int)
    requires
        0 <= i < senders.len(),
    ensures
        shown_sizes(senders).len() == senders.len(),
        shown_sizes(senders)[i] == outside::human_bytes_text(senders[i].size),
{
}

/// A choice is looked at with all that it says, the lines one by one.
pub proof fn law_choice_view(c: Choice, i: int)
    ensures
        c matches Choice::Nobody(s) ==> c@ == ChoiceView::Nobody(s@),
        c matches Choice::Only(l) ==> (c@ matches ChoiceView::Only(w) && w.before == l.before@
            && w.name == l.name@ && w.after == l.after@),
        c matches Choice::Ask { lines, prompt } ==> (c@ matches ChoiceView::Ask {
            lines: shown,
            prompt: asked,
        } && asked == prompt@ && shown.len() == lines@.len() && (0 <= i < lines@.len()
            ==> shown[i].before == lines@[i].before@ && shown[i].name == lines@[i].name@
            && shown[i].after == lines@[i].after@)),
{
}

}
