//! Names in the shapes that generated code wants.

use vstd::prelude::*;
use crate::utils::text::{
    ascii_lower, ascii_upper, chars_of, is_alphanumeric, is_uppercase, string_of, texts,
    to_ascii_lower, to_ascii_upper, unicode_alphanumeric, unicode_uppercase,
};

verus! {

/// Whether a new part starts at `c`: at an uppercase letter, a hyphen or an
/// underscore.
pub open spec fn starts_part(c: char) -> bool {
    unicode_uppercase(c) || c == '-' || c == '_'
}

/// The parts that are complete after the first `n` characters.
pub open spec fn closed_parts(name: Seq<char>, n: nat) -> Seq<Seq<char>>
    decreases n,
{
    if n == 0 || n > name.len() {
        Seq::empty()
    } else if starts_part(name[n - 1]) {
        closed_parts(name, (n - 1) as nat).push(open_part(name, (n - 1) as nat))
    } else {
        closed_parts(name, (n - 1) as nat)
    }
}

/// The part that is still growing after the first `n` characters: the
/// letters and digits since the last start of a part, in lower case.
pub open spec fn open_part(name: Seq<char>, n: nat) -> Seq<char>
    decreases n,
{
    if n == 0 || n > name.len() {
        Seq::empty()
    } else {
        let c = name[n - 1];
        let base = if starts_part(c) {
            Seq::empty()
        } else {
            open_part(name, (n - 1) as nat)
        };
        if unicode_alphanumeric(c) {
            base.push(ascii_lower(c))
        } else {
            base
        }
    }
}

/// The parts of a name. A part ends where an uppercase letter, a hyphen or
/// an underscore stands; only letters and digits are kept, in lower case. A
/// part that ends before it has a character is kept as an empty part; the last
/// part is kept only if it has a character.
pub open spec fn parts_of(name: Seq<char>) -> Seq<Seq<char>> {
    if open_part(name, name.len()).len() > 0 {
        closed_parts(name, name.len()).push(open_part(name, name.len()))
    } else {
        closed_parts(name, name.len())
    }
}

/// The parts of `name`.
pub fn decompose(name: &str) -> (r: Vec<String>)
    ensures
        texts(r@) == parts_of(name@),
{
    let chars = chars_of(name);
    let mut acc: Vec<String> = Vec::new();
    let mut local_acc: Vec<char> = Vec::new();
    let mut i: usize = 0;
    assert(texts(acc@) =~= closed_parts(name@, 0));
    while i < chars.len()
        invariant
            chars@ == name@,
            i <= chars@.len(),
            texts(acc@) == closed_parts(name@, i as nat),
            local_acc@ == open_part(name@, i as nat),
        decreases chars@.len() - i,
    {
        let chr = chars[i];
        if is_uppercase(chr) || chr == '-' || chr == '_' {
            let part = string_of(&local_acc);
            acc.push(part);
            local_acc = Vec::new();
            assert(texts(acc@) =~= closed_parts(name@, (i + 1) as nat));
        }
        if is_alphanumeric(chr) {
            local_acc.push(to_ascii_lower(chr));
        }
        i += 1;
    }
    if local_acc.len() > 0 {
        let part = string_of(&local_acc);
        acc.push(part);
        assert(texts(acc@) =~= parts_of(name@));
    }
    acc
}

/// A part with its first character made capital.
pub open spec fn capitalized(part: Seq<char>) -> Seq<char> {
    if part.len() == 0 {
        part
    } else {
        seq![ascii_upper(part[0])] + part.drop_first()
    }
}

/// The first `n` parts, each capitalized, one after the other.
pub open spec fn camel_of(parts: Seq<Seq<char>>, n: nat) -> Seq<char>
    decreases n,
{
    if n == 0 || n > parts.len() {
        Seq::empty()
    } else {
        camel_of(parts, (n - 1) as nat) + capitalized(parts[n - 1])
    }
}

/// The camel-case form of a name: its parts, each capitalized, one after the
/// other.
pub open spec fn camel(name: Seq<char>) -> Seq<char> {
    camel_of(parts_of(name), parts_of(name).len())
}

/// The camel-case form of `name`.
pub fn camel_case(name: &str) -> (r: String)
    ensures
        r@ == camel(name@),
{
    let parts = decompose(name);
    let mut acc: Vec<char> = Vec::new();
    let mut i: usize = 0;
    while i < parts.len()
        invariant
            i <= parts@.len(),
            texts(parts@) == parts_of(name@),
            acc@ == camel_of(parts_of(name@), i as nat),
        decreases parts@.len() - i,
    {
        let part = chars_of(parts[i].as_str());
        assert(part@ == texts(parts@)[i as int]);
        let ghost before = acc@;
        let mut k: usize = 0;
        while k < part.len()
            invariant
                k <= part@.len(),
                acc@ == before + capitalized(part@).take(k as int),
            decreases part@.len() - k,
        {
            let c = if k == 0 {
                to_ascii_upper(part[k])
            } else {
                part[k]
            };
            acc.push(c);
            assert(acc@ =~= before + capitalized(part@).take(k + 1));
            k += 1;
        }
        assert(capitalized(part@).take(part@.len() as int) =~= capitalized(part@));
        i += 1;
    }
    string_of(&acc)
}

/// The first `n` parts that have a character, joined with underscores.
pub open spec fn snake_of(parts: Seq<Seq<char>>, n: nat) -> Seq<char>
    decreases n,
{
    if n == 0 || n > parts.len() {
        Seq::empty()
    } else {
        let before = snake_of(parts, (n - 1) as nat);
        if parts[n - 1].len() == 0 {
            before
        } else if before.len() == 0 {
            parts[n - 1]
        } else {
            before + seq!['_'] + parts[n - 1]
        }
    }
}

/// The snake-case form of a name: its non-empty parts joined with
/// underscores.
pub open spec fn snake(name: Seq<char>) -> Seq<char> {
    snake_of(parts_of(name), parts_of(name).len())
}

/// The snake-case form of `name`.
pub fn _snake_case(name: &str) -> (r: String)
    ensures
        r@ == snake(name@),
{
    let parts = decompose(name);
    let mut acc: Vec<char> = Vec::new();
    let mut i: usize = 0;
    while i < parts.len()
        invariant
            i <= parts@.len(),
            texts(parts@) == parts_of(name@),
            acc@ == snake_of(parts_of(name@), i as nat),
        decreases parts@.len() - i,
    {
        let part = chars_of(parts[i].as_str());
        assert(part@ == texts(parts@)[i as int]);
        if part.len() > 0 {
            if acc.len() > 0 {
                acc.push('_');
            }
            let ghost before = acc@;
            let mut k: usize = 0;
            while k < part.len()
                invariant
                    k <= part@.len(),
                    acc@ == before + part@.take(k as int),
                decreases part@.len() - k,
            {
                acc.push(part[k]);
                assert(acc@ =~= before + part@.take(k + 1));
                k += 1;
            }
            assert(part@.take(part@.len() as int) =~= part@);
            assert(before + part@ =~= snake_of(parts_of(name@), (i + 1) as nat));
        }
        i += 1;
    }
    string_of(&acc)
}

} // verus!
