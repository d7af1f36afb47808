//! The marker of progress: a text that holds one line for each exercise that
//! has been opened.

use vstd::prelude::*;
use vstd::std_specs::iter::IteratorSpec;

verus! {

/// The character that ends a record.
pub const LINE_BREAK: char = '\n';

/// Splits a text at its line breaks: the lines that a line break has
/// closed, and what follows the last line break.
pub open spec fn split(text: Seq<char>) -> (Seq<Seq<char>>, Seq<char>)
    decreases text.len(),
{
    if text.len() == 0 {
        (Seq::empty(), Seq::empty())
    } else {
        let (closed, open) = split(text.drop_last());
        if text.last() == LINE_BREAK {
            (closed.push(open), Seq::empty())
        } else {
            (closed, open.push(text.last()))
        }
    }
}

/// The records that a text holds: each line of it, where characters after
/// the last line break make a line of their own.
pub open spec fn records(text: Seq<char>) -> Seq<Seq<char>> {
    let (closed, open) = split(text);
    if open.len() > 0 {
        closed.push(open)
    } else {
        closed
    }
}

/// A text to which a record can be added as a line of its own: it is empty
/// or ends with a line break.
pub open spec fn terminated(text: Seq<char>) -> bool {
    text.len() == 0 || text.last() == LINE_BREAK
}

/// The text that holds `record` as one line.
pub open spec fn line_of(record: Seq<char>) -> Seq<char> {
    record.push(LINE_BREAK)
}

/// A text ends a line exactly where nothing follows its last line break.
pub proof fn lemma_terminated_has_no_open_line(text: Seq<char>)
    ensures
        terminated(text) <==> split(text).1.len() == 0,
    decreases text.len(),
{
    if text.len() > 0 {
        lemma_terminated_has_no_open_line(text.drop_last());
    }
}

/// Characters without a line break that are added to a text extend its
/// last line.
pub proof fn lemma_split_extend(text: Seq<char>, more: Seq<char>)
    requires
        !more.contains(LINE_BREAK),
    ensures
        split(text + more) == (split(text).0, split(text).1 + more),
    decreases more.len(),
{
    if more.len() > 0 {
        lemma_split_extend(text, more.drop_last());
        assert((text + more).drop_last() =~= text + more.drop_last());
    }
}

/// A line added to a text closes the text's last line, extended by the
/// record.
pub proof fn lemma_split_append(text: Seq<char>, record: Seq<char>)
    requires
        !record.contains(LINE_BREAK),
    ensures
        split(text + line_of(record)) == (
            split(text).0.push(split(text).1 + record),
            Seq::<char>::empty(),
        ),
{
    lemma_split_extend(text, record);
    assert((text + line_of(record)).drop_last() =~= text + record);
}

/// Adding a record to a text that ends a line adds one record at the end and
/// leaves the records before it as they were.
pub proof fn lemma_append_adds_one_record(text: Seq<char>, record: Seq<char>)
    requires
        terminated(text),
        !record.contains(LINE_BREAK),
    ensures
        records(text + line_of(record)) == records(text).push(record),
{
    lemma_split_append(text, record);
    lemma_terminated_has_no_open_line(text);
}

/// Adding a record never lowers the number of records, and raises it by one
/// at most.
pub proof fn lemma_append_counts(text: Seq<char>, record: Seq<char>)
    requires
        !record.contains(LINE_BREAK),
    ensures
        records(text + line_of(record)).len() == records(text).len() + if terminated(text) {
            1nat
        } else {
            0nat
        },
{
    lemma_split_append(text, record);
    lemma_terminated_has_no_open_line(text);
}

/// The line that holds `record`.
pub fn record_line(record: &str) -> (text: String)
    ensures
        text@ == line_of(record@),
{
    let mut text = String::from_str(record);
    text.append("\n");
    proof {
        reveal_strlit("\n");
    }
    text
}

/// The marker's text, held in memory.
pub struct ProgressStore {
    content: String,
}

impl View for ProgressStore {
    type V = Seq<char>;

    closed spec fn view(&self) -> Seq<char> {
        self.content@
    }
}

impl ProgressStore {
    /// A store that holds `content`.
    pub fn new(content: String) -> (store: ProgressStore)
        ensures
            store@ == content@,
    {
        ProgressStore { content }
    }

    /// The text of the marker.
    pub fn content(&self) -> (text: &str)
        ensures
            text@ == self@,
    {
        self.content.as_str()
    }

    /// The number of records in the marker.
    pub fn count_unlocked(&self) -> (count: usize)
        ensures
            count == records(self@).len(),
    {
        let text = self.content.as_str();
        let length = text.unicode_len();
        let mut rest = text.chars();
        let mut closed: usize = 0;
        let mut open = false;
        let ghost mut seen: int = 0;
        loop
            invariant
                0 <= seen <= text@.len(),
                length == text@.len(),
                text@ == self@,
                rest.remaining() == text@.skip(seen),
                closed == split(text@.take(seen)).0.len(),
                open == (split(text@.take(seen)).1.len() > 0),
                closed + (if open { 1int } else { 0int }) <= seen,
                rest.decrease() is Some,
            decreases rest.decrease()->0,
        {
            match rest.next() {
                None => {
                    assert(text@.take(seen) =~= text@);
                    return if open {
                        closed + 1
                    } else {
                        closed
                    };
                },
                Some(c) => {
                    if c == LINE_BREAK {
                        closed = closed + 1;
                        open = false;
                    } else {
                        open = true;
                    }
                    proof {
                        assert(text@.take(seen + 1).drop_last() =~= text@.take(seen));
                        seen = seen + 1;
                    }
                },
            }
        }
    }

    /// Adds `record` to the marker as a line at its end. What the marker
    /// held stays as it was, in front of the new line.
    pub fn append_unlock(&mut self, record: &str)
        ensures
            final(self)@ == old(self)@ + line_of(record@),
            old(self)@.is_prefix_of(final(self)@),
            terminated(old(self)@) && !record@.contains(LINE_BREAK) ==> records(final(self)@)
                == records(old(self)@).push(record@),
    {
        proof {
            if terminated(self@) && !record@.contains(LINE_BREAK) {
                lemma_append_adds_one_record(self@, record@);
            }
        }
        let text = record_line(record);
        self.content.append(text.as_str());
    }
}

} // verus!
