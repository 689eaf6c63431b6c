//! The import lines at the top of a generated module.
//!
//! Plain modules come first, in ascending order, one `import` line each.
//! Then the names imported from modules, one `from` line for each module, the
//! modules in ascending order and the names of each in ascending order. Then,
//! in the same form, the names imported from the modules that are generated
//! for other files of the workspace. A blank line ends each group.

use vstd::prelude::*;
use crate::utils::order::{sort_texts, text_order};
use crate::utils::text::{join, join_texts, texts};

verus! {

/// The texts of a list of pairs.
pub open spec fn pair_views(pairs: Seq<(String, String)>) -> Seq<(Seq<char>, Seq<char>)> {
    Seq::new(pairs.len(), |i: int| (pairs[i].0@, pairs[i].1@))
}

/// The first parts of the first `n` pairs, each once, in the order in which
/// they first occur.
pub open spec fn pair_keys(pairs: Seq<(Seq<char>, Seq<char>)>, n: nat) -> Seq<Seq<char>>
    decreases n,
{
    if n == 0 || n > pairs.len() {
        Seq::empty()
    } else {
        let before = pair_keys(pairs, (n - 1) as nat);
        if before.contains(pairs[n - 1].0) {
            before
        } else {
            before.push(pairs[n - 1].0)
        }
    }
}

/// The second parts of those of the first `n` pairs whose first part is
/// `key`, in order.
pub open spec fn pair_values(pairs: Seq<(Seq<char>, Seq<char>)>, key: Seq<char>, n: nat) -> Seq<
    Seq<char>,
>
    decreases n,
{
    if n == 0 || n > pairs.len() {
        Seq::empty()
    } else {
        let before = pair_values(pairs, key, (n - 1) as nat);
        if pairs[n - 1].0 == key {
            before.push(pairs[n - 1].1)
        } else {
            before
        }
    }
}

/// The line that imports `values` from the module `key`, the values in
/// ascending order.
pub open spec fn from_line(key: Seq<char>, values: Seq<Seq<char>>) -> Seq<char> {
    "from "@ + key + " import "@ + join(values.sort_by(text_order()), ", "@) + "\n"@
}

/// The lines for the first `n` of `keys`.
pub open spec fn from_lines(pairs: Seq<(Seq<char>, Seq<char>)>, keys: Seq<Seq<char>>, n: nat) -> Seq<
    char,
>
    decreases n,
{
    if n == 0 || n > keys.len() {
        Seq::empty()
    } else {
        from_lines(pairs, keys, (n - 1) as nat) + from_line(
            keys[n - 1],
            pair_values(pairs, keys[n - 1], pairs.len()),
        )
    }
}

/// The group of `from` lines for pairs of module and name: nothing where
/// there is no pair; else a line for each module, the modules in ascending
/// order, and a blank line.
pub open spec fn from_section(pairs: Seq<(Seq<char>, Seq<char>)>) -> Seq<char> {
    if pairs.len() == 0 {
        Seq::empty()
    } else {
        let keys = pair_keys(pairs, pairs.len()).sort_by(text_order());
        from_lines(pairs, keys, keys.len()) + "\n"@
    }
}

/// The `import` lines for the first `n` of `modules`.
pub open spec fn import_lines(modules: Seq<Seq<char>>, n: nat) -> Seq<char>
    decreases n,
{
    if n == 0 || n > modules.len() {
        Seq::empty()
    } else {
        import_lines(modules, (n - 1) as nat) + "import "@ + modules[n - 1] + "\n"@
    }
}

/// The group of `import` lines for plain modules: nothing where there is no
/// module; else a line for each, in ascending order, and a blank line.
pub open spec fn import_section(modules: Seq<Seq<char>>) -> Seq<char> {
    if modules.len() == 0 {
        Seq::empty()
    } else {
        let sorted = modules.sort_by(text_order());
        import_lines(sorted, sorted.len()) + "\n"@
    }
}

fn contains_text(items: &Vec<String>, x: &String) -> (r: bool)
    ensures
        r == texts(items@).contains(x@),
{
    let mut i: usize = 0;
    while i < items.len()
        invariant
            i <= items@.len(),
            forall|k: int| 0 <= k < i ==> texts(items@)[k] != x@,
        decreases items@.len() - i,
    {
        if items[i] == *x {
            assert(texts(items@)[i as int] == x@);
            return true;
        }
        i += 1;
    }
    false
}

/// The first parts of `pairs`, each once, in the order in which they first
/// occur.
pub fn keys_of(pairs: &Vec<(String, String)>) -> (r: Vec<String>)
    ensures
        texts(r@) == pair_keys(pair_views(pairs@), pairs@.len()),
{
    let mut keys: Vec<String> = Vec::new();
    let mut i: usize = 0;
    assert(texts(keys@) =~= Seq::empty());
    while i < pairs.len()
        invariant
            i <= pairs@.len(),
            texts(keys@) == pair_keys(pair_views(pairs@), i as nat),
        decreases pairs@.len() - i,
    {
        let ghost before = keys@;
        if !contains_text(&keys, &pairs[i].0) {
            keys.push(pairs[i].0.clone());
            assert(texts(keys@) =~= texts(before).push(pairs@[i as int].0@));
        }
        i += 1;
    }
    keys
}

/// The second parts of those of `pairs` whose first part is `key`, in order.
pub fn values_for(pairs: &Vec<(String, String)>, key: &String) -> (r: Vec<String>)
    ensures
        texts(r@) == pair_values(pair_views(pairs@), key@, pairs@.len()),
{
    let mut values: Vec<String> = Vec::new();
    let mut i: usize = 0;
    assert(texts(values@) =~= Seq::empty());
    while i < pairs.len()
        invariant
            i <= pairs@.len(),
            texts(values@) == pair_values(pair_views(pairs@), key@, i as nat),
        decreases pairs@.len() - i,
    {
        let ghost before = values@;
        if pairs[i].0 == *key {
            values.push(pairs[i].1.clone());
            assert(texts(values@) =~= texts(before).push(pairs@[i as int].1@));
        }
        i += 1;
    }
    values
}

/// The group of `from` lines for `pairs` of module and name.
pub fn from_section_text(pairs: &Vec<(String, String)>) -> (r: String)
    ensures
        r@ == from_section(pair_views(pairs@)),
{
    let mut out = String::new();
    if pairs.len() == 0 {
        return out;
    }
    let keys = sort_texts(keys_of(pairs));
    let mut i: usize = 0;
    while i < keys.len()
        invariant
            i <= keys@.len(),
            out@ == from_lines(pair_views(pairs@), texts(keys@), i as nat),
        decreases keys@.len() - i,
    {
        let values = sort_texts(values_for(pairs, &keys[i]));
        let ghost before = out@;
        out.append("from ");
        out.append(keys[i].as_str());
        out.append(" import ");
        out.append(join_texts(&values, ", ").as_str());
        out.append("\n");
        assert(out@ =~= before + from_line(
            keys@[i as int]@,
            pair_values(pair_views(pairs@), keys@[i as int]@, pairs@.len()),
        ));
        i += 1;
    }
    out.append("\n");
    out
}

/// The group of `import` lines for plain `modules`.
pub fn import_section_text(modules: Vec<String>) -> (r: String)
    ensures
        r@ == import_section(texts(modules@)),
{
    let mut out = String::new();
    if modules.len() == 0 {
        return out;
    }
    let sorted = sort_texts(modules);
    let mut i: usize = 0;
    while i < sorted.len()
        invariant
            i <= sorted@.len(),
            out@ == import_lines(texts(sorted@), i as nat),
        decreases sorted@.len() - i,
    {
        out.append("import ");
        out.append(sorted[i].as_str());
        out.append("\n");
        i += 1;
    }
    out.append("\n");
    out
}

} // verus!
