//! The pull-based character source.  A stream hands out one character at a
//! time; line assembly is derived behaviour shared by every stream, and an
//! in-memory stream over a piece of text is the concrete realization kept
//! here.  A file-backed realization belongs with the surrounding program,
//! outside this library.

use vstd::prelude::*;
use vstd::string::StrSliceExecFns;
use crate::text::lemma_prefix_len;
use crate::text::lemma_prefix_len_is;
use crate::text::prefix_len;

verus! {

pub open spec fn newline_pred() -> spec_fn(char) -> bool {
    |c: char| c == '\n'
}

/// How many characters the first line of `s` takes: everything up to and
/// including the first newline, or all of `s` when it has none.
pub open spec fn line_len(s: Seq<char>) -> int {
    let k = prefix_len(s, newline_pred());
    if k < s.len() {
        k + 1
    } else {
        k
    }
}

/// The first line of `s`, with its trailing newline when it has one.
pub open spec fn line_of(s: Seq<char>) -> Seq<char> {
    s.take(line_len(s))
}

pub proof fn lemma_line_len_bounds(s: Seq<char>)
    ensures
        s.len() == 0 ==> line_len(s) == 0,
        s.len() > 0 ==> 1 <= line_len(s) <= s.len(),
{
    lemma_prefix_len(s, newline_pred());
}

/// Relies on `String::from_iter` over characters: the collected string holds
/// exactly the characters of the vector, in order.
#[verifier::external_body]
fn chars_to_string(v: &Vec<char>) -> (r: String)
    ensures
        r@ == v@,
{
    v.iter().collect()
}

/// A source of characters.  `remaining` is the sequence of characters the
/// stream has not yet handed out; `get_char` is the one primitive operation,
/// and `get_line` is derived from it.
pub trait CharStream: Sized {
    spec fn remaining(&self) -> Seq<char>;

    /// The next character, or nothing once the source is exhausted.
    fn get_char(&mut self) -> (c: Option<char>)
        ensures
            old(self).remaining().len() == 0 ==> c is None && final(self).remaining() == old(
                self,
            ).remaining(),
            old(self).remaining().len() > 0 ==> c == Some(old(self).remaining()[0])
                && final(self).remaining() == old(self).remaining().skip(1),
    ;

    /// The next line: characters up to and including the first newline, or up
    /// to the end of the source.  Nothing is returned only when not even one
    /// character was left, so a line holding a lone newline is still a line.
    fn get_line(&mut self) -> (line: Option<String>)
        ensures
            line is Some <==> old(self).remaining().len() > 0,
            line is None ==> final(self).remaining() == old(self).remaining(),
            line matches Some(l) ==> l@ == line_of(old(self).remaining()) && l@.len() > 0
                && final(self).remaining() == old(self).remaining().skip(line_of(
                old(self).remaining(),
            ).len() as int),
    {
        let mut buf: Vec<char> = Vec::new();
        let ghost orig = self.remaining();
        loop
            invariant_except_break
                buf@.len() <= orig.len(),
                buf@ == orig.take(buf@.len() as int),
                self.remaining() == orig.skip(buf@.len() as int),
                forall|i: int| 0 <= i < buf@.len() ==> buf@[i] != '\n',
            ensures
                buf@.len() <= orig.len(),
                buf@ == orig.take(buf@.len() as int),
                self.remaining() == orig.skip(buf@.len() as int),
                forall|i: int| 0 <= i < buf@.len() - 1 ==> buf@[i] != '\n',
                buf@.len() == 0 ==> orig.len() == 0,
                buf@.len() > 0 ==> buf@.last() == '\n' || buf@.len() == orig.len(),
            decreases orig.len() - buf@.len(),
        {
            let ghost k = buf@.len() as int;
            match self.get_char() {
                None => {
                    proof {
                        assert(orig.skip(k).len() == 0);
                    }
                    break ;
                },
                Some(c) => {
                    proof {
                        assert(orig.skip(k)[0] == orig[k]);
                        assert(orig.take(k).push(orig[k]) =~= orig.take(k + 1));
                        assert(orig.skip(k).skip(1) =~= orig.skip(k + 1));
                    }
                    buf.push(c);
                    if c == '\n' {
                        break ;
                    }
                },
            }
        }
        proof {
            let n = buf@.len() as int;
            if n > 0 {
                if buf@.last() == '\n' {
                    assert forall|i: int| 0 <= i < n - 1 implies !newline_pred()(orig[i]) by {
                        assert(orig[i] == buf@[i]);
                    }
                    assert(newline_pred()(orig[n - 1])) by {
                        assert(orig[n - 1] == buf@[n - 1]);
                    }
                    lemma_prefix_len_is(orig, newline_pred(), n - 1);
                } else {
                    assert(n == orig.len());
                    assert forall|i: int| 0 <= i < n implies !newline_pred()(orig[i]) by {
                        assert(orig[i] == buf@[i]);
                    }
                    lemma_prefix_len_is(orig, newline_pred(), n);
                }
                assert(line_len(orig) == n);
            }
        }
        if buf.len() == 0 {
            None
        } else {
            Some(chars_to_string(&buf))
        }
    }
}

/// An in-memory stream over a piece of text: `get_char` walks a cursor over
/// the characters of the text.
pub struct StringCharStream {
    text: String,
    pos: usize,
}

impl StringCharStream {
    pub fn new(string: &String) -> (s: StringCharStream)
        ensures
            s.remaining() == string@,
    {
        let s = StringCharStream { text: string.clone(), pos: 0 };
        proof {
            assert(s.text@.skip(0) =~= s.text@);
        }
        s
    }
}

impl CharStream for StringCharStream {
    /// The characters of the text from the cursor on.
    closed spec fn remaining(&self) -> Seq<char> {
        if self.pos as int <= self.text@.len() {
            self.text@.skip(self.pos as int)
        } else {
            Seq::empty()
        }
    }

    fn get_char(&mut self) -> (c: Option<char>) {
        let len = self.text.as_str().unicode_len();
        if self.pos < len {
            let c = self.text.as_str().get_char(self.pos);
            proof {
                assert(old(self).remaining()[0] == self.text@[self.pos as int]);
                assert(self.text@.skip(self.pos + 1) =~= self.text@.skip(self.pos as int).skip(
                    1,
                ));
            }
            self.pos = self.pos + 1;
            Some(c)
        } else {
            None
        }
    }
}

} // verus!
