//! Escaping and a few tools for optional text.

use vstd::prelude::*;
use crate::sax::entity_char;
use crate::parser::decode_entity;
use crate::text::{chars_of, code_of, length_gap, lower, lower_char, push_char, string_of};

verus! {

/// What `c` becomes when text is escaped: an entity for each of the five
/// characters that mean something in markup, the character itself otherwise.
pub open spec fn escape_char(c: char) -> Seq<char> {
    if c == '&' {
        seq!['&', 'a', 'm', 'p', ';']
    } else if c == '<' {
        seq!['&', 'l', 't', ';']
    } else if c == '>' {
        seq!['&', 'g', 't', ';']
    } else if c == '"' {
        seq!['&', 'q', 'u', 'o', 't', ';']
    } else if c == '\'' {
        seq!['&', 'a', 'p', 'o', 's', ';']
    } else {
        seq![c]
    }
}

/// The text with every character escaped.
pub open spec fn escaped(s: Seq<char>) -> Seq<char>
    decreases s.len(),
{
    if s.len() == 0 {
        Seq::empty()
    } else {
        escape_char(s[0]) + escaped(s.skip(1))
    }
}

/// How many characters stand before the first `;` of `s`; all of them where
/// there is none.
pub open spec fn entity_len(s: Seq<char>) -> nat
    decreases s.len(),
{
    if s.len() == 0 || s[0] == ';' {
        0
    } else {
        1 + entity_len(s.skip(1))
    }
}

/// What stands for the entity `name` in unescaped text: its character where it
/// is one of the five, and otherwise the name between `&` and `;`.
pub open spec fn unescape_entity(name: Seq<char>) -> Seq<char> {
    match entity_char(name) {
        Some(c) => seq![c],
        None => seq!['&'] + name + seq![';'],
    }
}

/// The text with every entity resolved. An entity runs from `&` to the next
/// `;`, or to the end of the text where no `;` follows.
pub open spec fn unescaped(s: Seq<char>) -> Seq<char>
    decreases s.len(),
{
    if s.len() == 0 {
        Seq::empty()
    } else if s[0] != '&' {
        seq![s[0]] + unescaped(s.skip(1))
    } else {
        let rest = s.skip(1);
        let n = entity_len(rest) as int;
        unescape_entity(rest.take(n)) + unescaped(
            rest.skip(
                if n < rest.len() {
                    n + 1
                } else {
                    rest.len() as int
                },
            ),
        )
    }
}

/// Escaping goes character by character.
pub proof fn lemma_escaped_concat(a: Seq<char>, b: Seq<char>)
    ensures
        escaped(a + b) == escaped(a) + escaped(b),
    decreases a.len(),
{
    if a.len() == 0 {
        assert(a + b =~= b);
        assert(escaped(a) + escaped(b) =~= escaped(b));
    } else {
        lemma_escaped_concat(a.skip(1), b);
        assert((a + b).skip(1) =~= a.skip(1) + b);
        assert(escape_char(a[0]) + (escaped(a.skip(1)) + escaped(b)) =~= (escape_char(a[0])
            + escaped(a.skip(1))) + escaped(b));
    }
}

/// Escaping one more character adds what that character becomes.
pub proof fn lemma_escaped_push(s: Seq<char>, c: char)
    ensures
        escaped(s.push(c)) == escaped(s) + escape_char(c),
{
    lemma_escaped_concat(s, seq![c]);
    assert(s.push(c) =~= s + seq![c]);
    assert(seq![c].skip(1) =~= Seq::<char>::empty());
    assert(escaped(seq![c].skip(1)) =~= Seq::<char>::empty());
    assert(escaped(seq![c]) =~= escape_char(c));
}

/// The first step of unescaping, spelled out.
pub proof fn lemma_unescaped_step(s: Seq<char>)
    ensures
        s.len() > 0 && s[0] != '&' ==> unescaped(s) == seq![s[0]] + unescaped(s.skip(1)),
        s.len() > 0 && s[0] == '&' ==> unescaped(s) == unescape_entity(
            s.skip(1).take(entity_len(s.skip(1)) as int),
        ) + unescaped(
            s.skip(1).skip(
                if entity_len(s.skip(1)) < s.skip(1).len() {
                    (entity_len(s.skip(1)) + 1) as int
                } else {
                    s.skip(1).len() as int
                },
            ),
        ),
        entity_len(s) <= s.len(),
    decreases s.len(),
{
    if s.len() > 0 {
        lemma_unescaped_step(s.skip(1));
    }
}

/// Unescaping undoes escaping.
pub proof fn lemma_unescape_escape(s: Seq<char>)
    ensures
        unescaped(escaped(s)) == s,
    decreases s.len(),
{
    if s.len() > 0 {
        let c = s[0];
        let tail = escaped(s.skip(1));
        let whole = escape_char(c) + tail;
        lemma_unescape_escape(s.skip(1));
        if c == '&' || c == '<' || c == '>' || c == '"' || c == '\'' {
            let name = escape_char(c).subrange(1, escape_char(c).len() - 1);
            let rest = whole.skip(1);
            assert(rest =~= name + seq![';'] + tail);
            lemma_entity_len(name, seq![';'] + tail);
            assert(name + (seq![';'] + tail) =~= rest);
            assert(rest.take(name.len() as int) =~= name);
            assert(rest.skip((name.len() + 1) as int) =~= tail);
            assert(entity_char(name) == Some(c)) by {
                assert(name =~= if c == '&' {
                    seq!['a', 'm', 'p']
                } else if c == '<' {
                    seq!['l', 't']
                } else if c == '>' {
                    seq!['g', 't']
                } else if c == '"' {
                    seq!['q', 'u', 'o', 't']
                } else {
                    seq!['a', 'p', 'o', 's']
                });
                assert(seq!['a', 'm', 'p'].len() == 3);
                assert(seq!['l', 't'].len() == 2);
                assert(seq!['g', 't'][0] == 'g');
                assert(seq!['l', 't'][0] == 'l');
                assert(seq!['q', 'u', 'o', 't'][0] == 'q');
                assert(seq!['a', 'p', 'o', 's'][0] == 'a');
                assert(seq!['a', 'p', 'o', 's'].len() == 4);
                assert(seq!['q', 'u', 'o', 't'].len() == 4);
            }
            assert(unescaped(whole) =~= seq![c] + s.skip(1));
        } else {
            assert(whole.skip(1) =~= tail);
            assert(whole[0] == c);
        }
        assert(seq![c] + s.skip(1) =~= s);
    }
}

/// A name without `;` that is followed by `;` ends there.
pub proof fn lemma_entity_len(name: Seq<char>, rest: Seq<char>)
    requires
        forall|i: int| 0 <= i < name.len() ==> name[i] != ';',
        rest.len() > 0,
        rest[0] == ';',
    ensures
        entity_len(name + rest) == name.len(),
    decreases name.len(),
{
    if name.len() == 0 {
        assert(name + rest =~= rest);
    } else {
        lemma_entity_len(name.skip(1), rest);
        assert((name + rest).skip(1) =~= name.skip(1) + rest);
    }
}

/// A copy of the text, where there is one.
pub fn str_dup(src: Option<&str>) -> (copy: Option<String>)
    ensures
        match src {
            Some(text) => copy matches Some(owned) && owned@ == text@,
            None => copy is None,
        },
{
    match src {
        Some(text) => Some(text.to_owned()),
        None => None,
    }
}

/// Appends the text, where there is one, to `dest`.
pub fn str_cat(dest: &mut String, src: Option<&str>)
    ensures
        final(dest)@ == match src {
            Some(text) => old(dest)@ + text@,
            None => old(dest)@,
        },
{
    match src {
        Some(text) => {
            dest.append(text);
        },
        None => {},
    }
}

/// The length of the text in bytes; 0 where there is none.
pub fn str_len(src: Option<&str>) -> (len: usize)
    ensures
        len == match src {
            Some(text) => text.len(),
            None => 0,
        },
{
    match src {
        Some(text) => text.len(),
        None => 0,
    }
}

/// How `a` orders against `b` when capital and small letters of the Latin
/// alphabet count as the same: at the first place where they differ, the
/// distance of the two characters; where one ends first or both are alike, the
/// distance `gap` of their lengths.
pub open spec fn caseless_order(a: Seq<char>, b: Seq<char>, gap: int) -> int
    decreases a.len(),
{
    if a.len() == 0 || b.len() == 0 {
        gap
    } else if lower(a[0]) != lower(b[0]) {
        lower(a[0]) as int - lower(b[0]) as int
    } else {
        caseless_order(a.skip(1), b.skip(1), gap)
    }
}

/// Orders two texts that are both there.
fn order_caseless(left: &str, right: &str) -> (order: i32)
    ensures
        order == caseless_order(
            left@,
            right@,
            crate::text::gap_of(left.len(), right.len()),
        ),
{
    let gap = length_gap(left.len(), right.len());
    let first = chars_of(left);
    let second = chars_of(right);
    let mut i: usize = 0;
    assert(first@.skip(0) =~= first@);
    assert(second@.skip(0) =~= second@);
    while i < first.len() && i < second.len()
        invariant
            i <= first.len(),
            i <= second.len(),
            first@ == left@,
            second@ == right@,
            gap == crate::text::gap_of(left.len(), right.len()),
            caseless_order(first@, second@, gap as int) == caseless_order(
                first@.skip(i as int),
                second@.skip(i as int),
                gap as int,
            ),
        decreases first.len() - i,
    {
        let x = lower_char(first[i]);
        let y = lower_char(second[i]);
        assert(first@.skip(i as int)[0] == first@[i as int]);
        assert(second@.skip(i as int)[0] == second@[i as int]);
        if x != y {
            return code_of(x) - code_of(y);
        }
        assert(first@.skip(i as int).skip(1) =~= first@.skip(i + 1));
        assert(second@.skip(i as int).skip(1) =~= second@.skip(i + 1));
        i = i + 1;
    }
    gap
}

/// Orders two texts without regard to the case of Latin letters. The result is
/// below zero where `a` comes first, zero where they are alike, above zero
/// where `b` comes first; -1 where either is missing.
pub fn str_casecmp(a: Option<&str>, b: Option<&str>) -> (order: i32)
    ensures
        order == match (a, b) {
            (Some(left), Some(right)) => caseless_order(
                left@,
                right@,
                crate::text::gap_of(left.len(), right.len()),
            ),
            _ => -1,
        },
{
    match (a, b) {
        (Some(left), Some(right)) => order_caseless(left, right),
        _ => -1,
    }
}

/// Replaces the five characters that mean something in markup by their
/// entities.
pub fn escape(s: &str) -> (out: String)
    ensures
        out@ == escaped(s@),
{
    let chars = chars_of(s);
    let mut out = String::new();
    let mut i: usize = 0;
    proof {
        reveal_strlit("&amp;");
        reveal_strlit("&lt;");
        reveal_strlit("&gt;");
        reveal_strlit("&quot;");
        reveal_strlit("&apos;");
    }
    while i < chars.len()
        invariant
            i <= chars.len(),
            chars@ == s@,
            out@ == escaped(chars@.take(i as int)),
            "&amp;"@ =~= escape_char('&'),
            "&lt;"@ =~= escape_char('<'),
            "&gt;"@ =~= escape_char('>'),
            "&quot;"@ =~= escape_char('"'),
            "&apos;"@ =~= escape_char('\''),
        decreases chars.len() - i,
    {
        let c = chars[i];
        proof {
            lemma_escaped_push(chars@.take(i as int), c);
            assert(chars@.take(i as int).push(c) =~= chars@.take(i + 1));
        }
        if c == '&' {
            out.append("&amp;");
        } else if c == '<' {
            out.append("&lt;");
        } else if c == '>' {
            out.append("&gt;");
        } else if c == '"' {
            out.append("&quot;");
        } else if c == '\'' {
            out.append("&apos;");
        } else {
            push_char(&mut out, c);
            assert(out@ =~= escaped(chars@.take(i as int)) + seq![c]);
        }
        i = i + 1;
    }
    assert(chars@.take(i as int) =~= chars@);
    out
}

/// Replaces the entities of the five characters by the characters. An entity
/// of another name stays, and gets its `;` where the text ended before it.
pub fn unescape(s: &str) -> (out: String)
    ensures
        out@ == unescaped(s@),
{
    let chars = chars_of(s);
    let mut out = String::new();
    let mut i: usize = 0;
    assert(chars@.skip(0) =~= chars@);
    assert(out@ + unescaped(chars@) =~= unescaped(chars@));
    while i < chars.len()
        invariant
            i <= chars.len(),
            chars@ == s@,
            out@ + unescaped(chars@.skip(i as int)) == unescaped(chars@),
        decreases chars.len() - i,
    {
        proof {
            lemma_unescaped_step(chars@.skip(i as int));
        }
        let ghost done = out@;
        if chars[i] != '&' {
            assert(chars@.skip(i as int).skip(1) =~= chars@.skip(i + 1));
            push_char(&mut out, chars[i]);
            assert(out@ + unescaped(chars@.skip(i + 1)) =~= done + (seq![chars@[i as int]]
                + unescaped(chars@.skip(i + 1))));
            i = i + 1;
        } else {
            let start: usize = i + 1;
            let mut end: usize = start;
            while end < chars.len() && chars[end] != ';'
                invariant
                    start <= end <= chars.len(),
                    entity_len(chars@.skip(end as int)) + (end - start) == entity_len(
                        chars@.skip(start as int),
                    ),
                decreases chars.len() - end,
            {
                assert(chars@.skip(end as int).skip(1) =~= chars@.skip(end + 1));
                end = end + 1;
            }
            let ghost rest = chars@.skip(start as int);
            assert(chars@.skip(i as int).skip(1) =~= rest);
            assert(entity_len(rest) == end - start);
            let name = string_of(&chars, start, end);
            assert(name@ =~= rest.take(entity_len(rest) as int));
            let next: usize = if end < chars.len() {
                end + 1
            } else {
                end
            };
            assert(rest.skip(next - start) =~= chars@.skip(next as int));
            match decode_entity(name.as_str()) {
                Some(c) => {
                    push_char(&mut out, c);
                    assert(out@ =~= done + unescape_entity(name@));
                },
                None => {
                    push_char(&mut out, '&');
                    out.append(name.as_str());
                    push_char(&mut out, ';');
                    assert(out@ =~= done + unescape_entity(name@));
                },
            }
            assert(out@ + unescaped(chars@.skip(next as int)) =~= done + (unescape_entity(name@)
                + unescaped(chars@.skip(next as int))));
            i = next;
        }
    }
    assert(chars@.skip(i as int) =~= Seq::<char>::empty());
    assert(out@ + Seq::<char>::empty() =~= out@);
    out
}

} // verus!
