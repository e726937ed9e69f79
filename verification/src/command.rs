//! The raw command-line tokenizer of the bot's single command: splits a
//! raw input line into words, honouring single and double quotes,
//! backslash escapes, and an em-dash written for a double dash.

use vstd::prelude::*;

use crate::error::Error;
use crate::push_char;

verus! {

/// The characters the tokenizer treats as word breaks, besides the NUL
/// terminator: the Unicode `White_Space` set.
pub open spec fn is_space(c: char) -> bool {
    ||| c == ' '
    ||| c == '\t'
    ||| c == '\n'
    ||| c == '\u{b}'
    ||| c == '\u{c}'
    ||| c == '\r'
    ||| c == '\u{85}'
    ||| c == '\u{a0}'
    ||| c == '\u{1680}'
    ||| c == '\u{2000}'
    ||| c == '\u{2001}'
    ||| c == '\u{2002}'
    ||| c == '\u{2003}'
    ||| c == '\u{2004}'
    ||| c == '\u{2005}'
    ||| c == '\u{2006}'
    ||| c == '\u{2007}'
    ||| c == '\u{2008}'
    ||| c == '\u{2009}'
    ||| c == '\u{200a}'
    ||| c == '\u{2028}'
    ||| c == '\u{2029}'
    ||| c == '\u{202f}'
    ||| c == '\u{205f}'
    ||| c == '\u{3000}'
}

/// Whether `c` is a word break.
fn is_whitespace_char(c: char) -> (r: bool)
    ensures
        r == is_space(c),
{
    c == ' ' || c == '\t' || c == '\n' || c == '\u{b}' || c == '\u{c}' || c == '\r' || c == '\u{85}'
        || c == '\u{a0}' || c == '\u{1680}' || (c >= '\u{2000}' && c <= '\u{200a}') || c
        == '\u{2028}' || c == '\u{2029}' || c == '\u{202f}' || c == '\u{205f}' || c == '\u{3000}'
}

/// The tokenizer's state between two characters.
pub enum PRState {
    Out,
    InWord,
    InSimpleQuote(char),
    Escape,
}

/// The work a state still owes without consuming input: entering a word
/// consumes none.
pub open spec fn state_rank(st: PRState) -> int {
    match st {
        PRState::Out => 1,
        _ => 0,
    }
}

/// One run of the tokenizer over the remaining input, carrying the current
/// word and the words finished so far.
pub open spec fn parse_raw_rec(
    s: Seq<char>,
    st: PRState,
    cur: Seq<char>,
    acc: Seq<Seq<char>>,
) -> Result<Seq<Seq<char>>, Error>
    decreases s.len(), state_rank(st),
{
    if s.len() == 0 {
        match st {
            PRState::Out => Ok(acc),
            PRState::InWord => Ok(acc.push(cur)),
            PRState::InSimpleQuote(_) => Err(Error::UnclosedQuote),
            PRState::Escape => Err(Error::BadEscape),
        }
    } else {
        let c = s[0];
        match st {
            PRState::Out => {
                if c == '\0' || is_space(c) {
                    parse_raw_rec(s.drop_first(), PRState::Out, cur, acc)
                } else {
                    parse_raw_rec(s, PRState::InWord, cur, acc)
                }
            },
            PRState::InWord => {
                if c == '\0' || is_space(c) {
                    parse_raw_rec(s.drop_first(), PRState::Out, Seq::empty(), acc.push(cur))
                } else if c == '\'' || c == '"' {
                    parse_raw_rec(s.drop_first(), PRState::InSimpleQuote(c), cur, acc)
                } else if c == '\\' {
                    parse_raw_rec(s.drop_first(), PRState::Escape, cur, acc)
                } else if c == '\u{2014}' {
                    parse_raw_rec(s.drop_first(), PRState::InWord, cur + seq!['-', '-'], acc)
                } else {
                    parse_raw_rec(s.drop_first(), PRState::InWord, cur.push(c), acc)
                }
            },
            PRState::InSimpleQuote(end) => {
                if c == end {
                    parse_raw_rec(s.drop_first(), PRState::InWord, cur, acc)
                } else if c == '\0' {
                    Err(Error::UnclosedQuote)
                } else {
                    parse_raw_rec(s.drop_first(), PRState::InSimpleQuote(end), cur.push(c), acc)
                }
            },
            PRState::Escape => {
                if c == '\0' {
                    Err(Error::BadEscape)
                } else {
                    parse_raw_rec(s.drop_first(), PRState::InWord, cur.push(c), acc)
                }
            },
        }
    }
}

/// What [`parse_raw`] returns on a raw input line.
pub open spec fn parse_raw_spec(s: Seq<char>) -> Result<Seq<Seq<char>>, Error> {
    parse_raw_rec(s, PRState::Out, Seq::empty(), Seq::empty())
}

/// Splits a raw input line into words: whitespace separates words, quotes
/// protect it, a backslash escapes the next character, and an em-dash
/// stands for a double dash. A quote or escape left open at the end of the
/// line is an error.
pub fn parse_raw(raw_input: String) -> (r: Result<Vec<String>, Error>)
    ensures
        match r {
            Ok(v) => parse_raw_spec(raw_input@) == Ok::<Seq<Seq<char>>, Error>(v.deep_view()),
            Err(e) => parse_raw_spec(raw_input@) == Err::<Seq<Seq<char>>, Error>(e),
        },
{
    let s = raw_input.as_str();
    let n = s.unicode_len();
    let mut state = PRState::Out;
    let mut current = String::new();
    let mut result: Vec<String> = Vec::new();
    let mut i: usize = 0;
    proof {
        assert(s@.skip(0) =~= s@);
        assert(result.deep_view() =~~= Seq::<Seq<char>>::empty());
    }
    while i < n
        invariant
            s@ == raw_input@,
            n == s@.len(),
            0 <= i <= n,
            parse_raw_spec(raw_input@) == parse_raw_rec(
                s@.skip(i as int),
                state,
                current@,
                result.deep_view(),
            ),
        decreases n - i, state_rank(state),
    {
        let c = s.get_char(i);
        proof {
            assert(s@.skip(i as int)[0] == s@[i as int]);
            assert(s@.skip(i as int).drop_first() =~= s@.skip(i + 1 as int));
        }
        match state {
            PRState::Out => {
                if c == '\0' || is_whitespace_char(c) {
                    i = i + 1;
                } else {
                    state = PRState::InWord;
                }
            },
            PRState::InWord => {
                if c == '\0' || is_whitespace_char(c) {
                    let ghost pre = result.deep_view();
                    let ghost word = current@;
                    result.push(current);
                    current = String::new();
                    proof {
                        let nd = result.deep_view();
                        assert(nd.len() == pre.len() + 1);
                        assert(result@[pre.len() as int]@ == word);
                        assert forall|k: int| 0 <= k < pre.len() implies nd[k] == pre[k] by {}
                        assert(result.deep_view() =~~= pre.push(word));
                    }
                    state = PRState::Out;
                    i = i + 1;
                } else if c == '\'' || c == '"' {
                    state = PRState::InSimpleQuote(c);
                    i = i + 1;
                } else if c == '\\' {
                    state = PRState::Escape;
                    i = i + 1;
                } else if c == '\u{2014}' {
                    let ghost pre = current@;
                    push_char(&mut current, '-');
                    push_char(&mut current, '-');
                    proof {
                        assert(current@ =~= pre + seq!['-', '-']);
                    }
                    i = i + 1;
                } else {
                    push_char(&mut current, c);
                    i = i + 1;
                }
            },
            PRState::InSimpleQuote(end) => {
                if c == end {
                    state = PRState::InWord;
                    i = i + 1;
                } else if c == '\0' {
                    return Err(Error::UnclosedQuote);
                } else {
                    push_char(&mut current, c);
                    i = i + 1;
                }
            },
            PRState::Escape => {
                if c == '\0' {
                    return Err(Error::BadEscape);
                } else {
                    push_char(&mut current, c);
                    state = PRState::InWord;
                    i = i + 1;
                }
            },
        }
    }
    proof {
        assert(s@.skip(n as int) =~= Seq::<char>::empty());
    }
    match state {
        PRState::Out => Ok(result),
        PRState::InWord => {
            let ghost pre = result.deep_view();
            let ghost word = current@;
            result.push(current);
            proof {
                let nd = result.deep_view();
                assert(nd.len() == pre.len() + 1);
                assert(result@[pre.len() as int]@ == word);
                assert forall|k: int| 0 <= k < pre.len() implies nd[k] == pre[k] by {}
                assert(result.deep_view() =~~= pre.push(word));
            }
            Ok(result)
        },
        PRState::InSimpleQuote(_) => Err(Error::UnclosedQuote),
        PRState::Escape => Err(Error::BadEscape),
    }
}

} // verus!
