//! Turning lines into `name = value` records.  One line is parsed by
//! stripping everything from the first `#`, requiring exactly one `=`,
//! trimming both sides and classifying the right-hand side; a reader pulls
//! lines from a character stream and skips, silently, every line that does
//! not parse.

use vstd::prelude::*;
use vstd::string::StrSliceExecFns;
use vstd::string::StringExecFns;
use crate::stream::CharStream;
use crate::stream::StringCharStream;
use crate::stream::line_len;
use crate::stream::line_of;
use crate::stream::lemma_line_len_bounds;
use crate::text::count_char;
use crate::text::lemma_prefix_len;
use crate::text::lemma_prefix_len_is;
use crate::text::prefix_len;
use crate::text::trim_spec;
use crate::text::trim_str;
use crate::value::CfgType;
use crate::value::ValueModel;
use crate::value::classify_spec;

verus! {

pub open spec fn hash_pred() -> spec_fn(char) -> bool {
    |c: char| c == '#'
}

pub open spec fn eq_pred() -> spec_fn(char) -> bool {
    |c: char| c == '='
}

/// The line up to, and not including, its first `#`.
pub open spec fn strip_comment_spec(s: Seq<char>) -> Seq<char> {
    s.take(prefix_len(s, hash_pred()))
}

/// The mathematical shape of one parsed record.
pub struct RecordModel {
    pub name: Seq<char>,
    pub value: ValueModel,
}

/// What one line yields: after comment stripping the line must hold exactly
/// one `=`; both sides are trimmed, and the right-hand side must classify.
pub open spec fn parse_line_spec(line: Seq<char>) -> Option<RecordModel> {
    let t = strip_comment_spec(line);
    if count_char(t, '=') != 1 {
        None
    } else {
        let e = prefix_len(t, eq_pred());
        let name = trim_spec(t.take(e));
        match classify_spec(trim_spec(t.skip(e + 1))) {
            Some(v) => Some(RecordModel { name, value: v }),
            None => None,
        }
    }
}

/// One parsed `name = value` record.
#[derive(Debug, PartialEq)]
pub struct CfgLine {
    pub name: String,
    pub value: CfgType,
}

impl View for CfgLine {
    type V = RecordModel;

    open spec fn view(&self) -> RecordModel {
        RecordModel { name: self.name@, value: self.value@ }
    }
}

/// Parse one line.  A line whose comment-stripped text has no `=`, or more
/// than one, yields nothing, as does one whose value does not classify.
pub fn parse_cfg_line(line: &str) -> (r: Option<CfgLine>)
    ensures
        match r {
            Some(rec) => parse_line_spec(line@) == Some(rec@),
            None => parse_line_spec(line@) is None,
        },
        count_char(strip_comment_spec(line@), '=') != 1 ==> r is None,
{
    let len = line.unicode_len();
    let mut h: usize = 0;
    loop
        invariant_except_break
            h <= len,
            len == line@.len(),
            forall|i: int| 0 <= i < h ==> line@[i] != '#',
        ensures
            h <= len,
            len == line@.len(),
            forall|i: int| 0 <= i < h ==> line@[i] != '#',
            h < len ==> line@[h as int] == '#',
        decreases len - h,
    {
        if h >= len {
            break ;
        }
        if line.get_char(h) == '#' {
            break ;
        }
        h += 1;
    }
    proof {
        lemma_prefix_len_is(line@, hash_pred(), h as int);
    }
    let t = line.substring_char(0, h);
    proof {
        assert(t@ =~= strip_comment_spec(line@));
    }
    let tlen = h;
    let mut cnt: usize = 0;
    let mut epos: usize = 0;
    let mut i: usize = 0;
    while i < tlen
        invariant
            i <= tlen,
            tlen == t@.len(),
            cnt <= i,
            cnt as int == count_char(t@.take(i as int), '='),
            cnt == 0 ==> forall|j: int| 0 <= j < i ==> t@[j] != '=',
            cnt > 0 ==> epos < i && t@[epos as int] == '=' && forall|j: int|
                0 <= j < epos ==> t@[j] != '=',
        decreases tlen - i,
    {
        proof {
            assert(t@.take(i + 1).drop_last() =~= t@.take(i as int));
            assert(t@.take(i + 1)[i as int] == t@[i as int]);
        }
        if t.get_char(i) == '=' {
            if cnt == 0 {
                epos = i;
            }
            cnt += 1;
        }
        i += 1;
    }
    proof {
        assert(t@.take(tlen as int) =~= t@);
    }
    if cnt != 1 {
        return None;
    }
    proof {
        lemma_prefix_len_is(t@, eq_pred(), epos as int);
    }
    let name_raw = t.substring_char(0, epos);
    let value_raw = t.substring_char(epos + 1, tlen);
    proof {
        assert(name_raw@ =~= t@.take(epos as int));
        assert(value_raw@ =~= t@.skip(epos + 1));
    }
    let name_t = trim_str(name_raw);
    let value_t = trim_str(value_raw);
    match CfgType::from_string(String::from_str(value_t)) {
        None => None,
        Some(v) => Some(CfgLine { name: String::from_str(name_t), value: v }),
    }
}

/// What a whole source yields next: lines are taken in order, and the first
/// one that parses gives the record; the rest of the source is what follows
/// that line.  An exhausted source yields nothing and stays as it is.
pub open spec fn next_record_spec(s: Seq<char>) -> (Option<RecordModel>, Seq<char>)
    decreases s.len(),
    via next_record_spec_decreases
{
    if s.len() == 0 {
        (None, s)
    } else {
        let rest = s.skip(line_len(s));
        match parse_line_spec(line_of(s)) {
            Some(rec) => (Some(rec), rest),
            None => next_record_spec(rest),
        }
    }
}

#[via_fn]
proof fn next_record_spec_decreases(s: Seq<char>) {
    if s.len() > 0 {
        lemma_line_len_bounds(s);
    }
}

/// Pull lines from `stream` until one parses or the stream is exhausted.
pub fn next_record<S: CharStream>(stream: &mut S) -> (r: Option<CfgLine>)
    ensures
        match r {
            Some(rec) => next_record_spec(old(stream).remaining()).0 == Some(rec@),
            None => next_record_spec(old(stream).remaining()).0 is None,
        },
        final(stream).remaining() == next_record_spec(old(stream).remaining()).1,
{
    loop
        invariant
            next_record_spec(old(stream).remaining()) == next_record_spec(stream.remaining()),
        decreases stream.remaining().len(),
    {
        let ghost before = stream.remaining();
        proof {
            lemma_line_len_bounds(before);
        }
        match stream.get_line() {
            None => {
                return None;
            },
            Some(l) => {
                match parse_cfg_line(l.as_str()) {
                    Some(rec) => {
                        return Some(rec);
                    },
                    None => {},
                }
            },
        }
    }
}

/// A source of records.  `remaining` is the text the reader has not yet
/// consumed; `get_cfg_line` yields the next record, skipping malformed lines
/// silently, and nothing once the text is exhausted.
pub trait CfgReader: Sized {
    spec fn remaining(&self) -> Seq<char>;

    fn get_cfg_line(&mut self) -> (r: Option<CfgLine>)
        ensures
            match r {
                Some(rec) => next_record_spec(old(self).remaining()).0 == Some(rec@),
                None => next_record_spec(old(self).remaining()).0 is None,
            },
            final(self).remaining() == next_record_spec(old(self).remaining()).1,
    ;
}

/// A reader over an in-memory text: it owns its character stream outright.
pub struct StringCfgReader {
    stream: StringCharStream,
}

impl StringCfgReader {
    pub fn new(stream: StringCharStream) -> (r: StringCfgReader)
        ensures
            r.remaining() == stream.remaining(),
    {
        StringCfgReader { stream }
    }

    pub fn from_text(text: &String) -> (r: StringCfgReader)
        ensures
            r.remaining() == text@,
    {
        StringCfgReader { stream: StringCharStream::new(text) }
    }
}

impl CfgReader for StringCfgReader {
    closed spec fn remaining(&self) -> Seq<char> {
        self.stream.remaining()
    }

    fn get_cfg_line(&mut self) -> (r: Option<CfgLine>) {
        next_record(&mut self.stream)
    }
}

/// Nothing comes of an exhausted source, and it stays exhausted: every later
/// call still yields nothing.
pub proof fn lemma_exhausted_stays_exhausted(s: Seq<char>)
    requires
        s.len() == 0,
    ensures
        next_record_spec(s).0 is None,
        next_record_spec(s).1 == s,
{
}

/// Removing everything from the first `#` on is all the weight a comment
/// carries: a line parses exactly as its comment-stripped text does.
pub proof fn lemma_comment_stripping(line: Seq<char>)
    ensures
        parse_line_spec(strip_comment_spec(line)) == parse_line_spec(line),
{
    let t = strip_comment_spec(line);
    lemma_prefix_len(line, hash_pred());
    assert forall|i: int| 0 <= i < t.len() implies !hash_pred()(t[i]) by {
        assert(t[i] == line[i]);
    }
    lemma_prefix_len_is(t, hash_pred(), t.len() as int);
    assert(strip_comment_spec(t) =~= t);
}

} // verus!
