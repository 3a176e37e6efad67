use vstd::prelude::*;
use vstd::string::StrSliceExecFns;

verus! {

/// One row of the message log: an index, a date, the sender, the raw
/// recipient field, a subject and the body.
pub struct EmailRecord {
    pub index: usize,
    pub date: String,
    pub sender: String,
    pub recipient1: String,
    pub subject: String,
    pub text: String,
}

/// A message reduced to its sender and its individual recipients.
pub struct ParsedEmail {
    pub from: String,
    pub to: Vec<String>,
}

/// The (sender, recipient) pairs of one message, in recipient order.
pub open spec fn pairs_of(e: ParsedEmail) -> Seq<(Seq<char>, Seq<char>)> {
    e.to@.map_values(|r: String| (e.from@, r@))
}

/// The (sender, recipient) pairs of a sequence of messages, in order.
pub open spec fn email_pairs(emails: Seq<ParsedEmail>) -> Seq<(Seq<char>, Seq<char>)>
    decreases emails.len(),
{
    if emails.len() == 0 {
        Seq::empty()
    } else {
        email_pairs(emails.drop_last()) + pairs_of(emails.last())
    }
}

/// What `str::trim` leaves of a string.
pub uninterp spec fn trimmed(s: Seq<char>) -> Seq<char>;

/// What `str::to_lowercase` makes of a string.
pub uninterp spec fn lowercased(s: Seq<char>) -> Seq<char>;

/// The pieces of `s` between its commas, in order: one more piece than
/// there are commas, empty pieces included.
pub open spec fn comma_pieces(s: Seq<char>) -> Seq<Seq<char>>
    decreases s.len(),
{
    if s.len() == 0 {
        seq![Seq::<char>::empty()]
    } else {
        let rest = comma_pieces(s.drop_last());
        if s.last() == ',' {
            rest.push(Seq::<char>::empty())
        } else {
            rest.update(rest.len() - 1, rest.last().push(s.last()))
        }
    }
}

/// One recipient address as it is kept: trimmed, then lower-cased.
pub open spec fn clean_address(piece: Seq<char>) -> Seq<char> {
    lowercased(trimmed(piece))
}

/// The non-empty entries of `items`, in order.
pub open spec fn non_empty(items: Seq<Seq<char>>) -> Seq<Seq<char>>
    decreases items.len(),
{
    if items.len() == 0 {
        Seq::empty()
    } else if items.last().len() == 0 {
        non_empty(items.drop_last())
    } else {
        non_empty(items.drop_last()).push(items.last())
    }
}

/// The addresses of a raw recipient field: its comma-separated pieces,
/// each cleaned, the empty ones left out.
pub open spec fn recipients_of(field: Seq<char>) -> Seq<Seq<char>> {
    non_empty(comma_pieces(field).map_values(|p: Seq<char>| clean_address(p)))
}

/// Relies on `str::split` with a `char` pattern: the substrings between the
/// occurrences of `','`, in order, empty ones included.
#[verifier::external_body]
fn split_commas(s: &str) -> (r: Vec<String>)
    ensures
        r@.map_values(|p: String| p@) == comma_pieces(s@),
{
    s.split(',').map(|p| p.to_string()).collect()
}

/// Relies on `str::trim`: the string without leading and trailing white
/// space; the result depends on the characters alone.
#[verifier::external_body]
fn trim_text(s: &str) -> (r: String)
    ensures
        r@ == trimmed(s@),
{
    s.trim().to_string()
}

/// Relies on `str::to_lowercase`: the lower-case mapping of the string; the
/// result depends on the characters alone.
#[verifier::external_body]
fn lowercase_text(s: &str) -> (r: String)
    ensures
        r@ == lowercased(s@),
{
    s.to_lowercase()
}

/// The entries of `items` that are not empty, in order.
pub fn keep_non_empty(items: Vec<String>) -> (r: Vec<String>)
    ensures
        r@.map_values(|p: String| p@) == non_empty(items@.map_values(|p: String| p@)),
{
    let ghost views = items@.map_values(|p: String| p@);
    let mut out: Vec<String> = Vec::new();
    let mut i: usize = 0;
    while i < items.len()
        invariant
            views == items@.map_values(|p: String| p@),
            0 <= i <= items@.len(),
            out@.map_values(|p: String| p@) == non_empty(views.take(i as int)),
        decreases items@.len() - i,
    {
        proof {
            assert(views.take(i + 1).drop_last() =~= views.take(i as int));
        }
        if items[i].as_str().unicode_len() > 0 {
            let ghost prev = out@;
            out.push(items[i].clone());
            proof {
                assert(out@.map_values(|p: String| p@) =~= prev.map_values(|p: String| p@).push(
                    items@[i as int]@,
                ));
            }
        }
        i = i + 1;
    }
    proof {
        assert(views.take(i as int) =~= views);
    }
    out
}

/// Splits a raw recipient field at its commas into individual addresses,
/// each trimmed and lower-cased; empty pieces are dropped.
pub fn parse_recipients(recipient: &str) -> (r: Vec<String>)
    ensures
        r@.map_values(|p: String| p@) == recipients_of(recipient@),
{
    let pieces = split_commas(recipient);
    let ghost piece_views = pieces@.map_values(|p: String| p@);
    let mut cleaned: Vec<String> = Vec::new();
    let mut i: usize = 0;
    while i < pieces.len()
        invariant
            piece_views == pieces@.map_values(|p: String| p@),
            0 <= i <= pieces@.len(),
            cleaned@.map_values(|p: String| p@) == piece_views.take(i as int).map_values(
                |p: Seq<char>| clean_address(p),
            ),
        decreases pieces@.len() - i,
    {
        let t = trim_text(pieces[i].as_str());
        let c = lowercase_text(t.as_str());
        let ghost prev = cleaned@;
        cleaned.push(c);
        proof {
            assert(piece_views.take(i + 1) =~= piece_views.take(i as int).push(piece_views[i as int]));
            assert(cleaned@.map_values(|p: String| p@) =~= prev.map_values(|p: String| p@).push(
                c@,
            ));
            assert(cleaned@.map_values(|p: String| p@) =~= piece_views.take(i + 1).map_values(
                |p: Seq<char>| clean_address(p),
            ));
        }
        i = i + 1;
    }
    proof {
        assert(piece_views.take(i as int) =~= piece_views);
    }
    keep_non_empty(cleaned)
}

/// The message that a log row stands for: its sender and the addresses of
/// its recipient field. A row without a sender, or without any recipient
/// address, stands for none.
pub fn parse_record(record: &EmailRecord) -> (r: Option<ParsedEmail>)
    ensures
        r is None <==> (record.sender@.len() == 0 || recipients_of(record.recipient1@).len() == 0),
        r matches Some(e) ==> e.from@ == record.sender@ && e.to@.map_values(|p: String| p@)
            == recipients_of(record.recipient1@),
{
    let recipients = parse_recipients(record.recipient1.as_str());
    if record.sender.as_str().unicode_len() == 0 || recipients.len() == 0 {
        None
    } else {
        Some(ParsedEmail { from: record.sender.clone(), to: recipients })
    }
}

} // verus!
