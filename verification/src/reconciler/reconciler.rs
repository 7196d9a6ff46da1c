//! Splitting variable paths such as `$a->b['c']::$d` into their parts.

use vstd::prelude::*;

use crate::scope::chars_of;

verus! {

/// `c` added to the part being built, or as a new part when the last part
/// was a delimiter.
pub open spec fn add_to_current_part(parts: Seq<Seq<char>>, open: bool, c: char) -> Seq<Seq<char>> {
    if open && parts.len() > 0 {
        parts.update(parts.len() - 1, parts.last().push(c))
    } else {
        parts.push(seq![c])
    }
}

/// The parts of `chars` from index `i` on, given the parts found before it,
/// whether the last part is still being built (`open`), the quote of an open
/// string literal, the escape flag, and the bracket depth.
pub open spec fn path_parts_from(
    chars: Seq<char>,
    i: int,
    parts: Seq<Seq<char>>,
    open: bool,
    quote: Option<char>,
    escape: bool,
    brackets: int,
) -> Seq<Seq<char>>
    decreases chars.len() - i,
{
    if i < 0 || i >= chars.len() {
        parts
    } else {
        let c = chars[i];
        match quote {
            Option::Some(q) => path_parts_from(
                chars,
                i + 1,
                add_to_current_part(parts, open, c),
                true,
                if c == q && !escape {
                    Option::None
                } else {
                    quote
                },
                if c == '\\' {
                    !escape
                } else {
                    escape
                },
                brackets,
            ),
            Option::None => if c == '[' || c == ']' {
                path_parts_from(
                    chars,
                    i + 1,
                    parts.push(seq![c]),
                    false,
                    quote,
                    escape,
                    if c == '[' {
                        brackets + 1
                    } else {
                        brackets - 1
                    },
                )
            } else if c == '\'' || c == '"' {
                path_parts_from(
                    chars,
                    i + 1,
                    add_to_current_part(parts, open, c),
                    true,
                    Option::Some(c),
                    escape,
                    brackets,
                )
            } else if c == ':' && brackets == 0 && i + 2 < chars.len() && chars[i + 1] == ':'
                && chars[i + 2] == '$' {
                path_parts_from(
                    chars,
                    i + 3,
                    parts.push(seq![':', ':', '$']),
                    false,
                    quote,
                    escape,
                    brackets,
                )
            } else if c == '-' && brackets == 0 && i + 1 < chars.len() && chars[i + 1] == '>' {
                path_parts_from(
                    chars,
                    i + 2,
                    parts.push(seq!['-', '>']),
                    false,
                    quote,
                    escape,
                    brackets,
                )
            } else {
                path_parts_from(
                    chars,
                    i + 1,
                    add_to_current_part(parts, open, c),
                    true,
                    quote,
                    escape,
                    brackets,
                )
            },
        }
    }
}

/// The parts of a variable path: the base, and each `[`, `]`, `->` and `::$`
/// delimiter as a part of its own between the names and keys. Inside a
/// quoted key, delimiters are kept as characters of the key; a backslash
/// flips an escape flag that keeps the next matching quote from closing the
/// key (the flag is never cleared by other characters).
pub open spec fn path_parts(path: Seq<char>) -> Seq<Seq<char>> {
    path_parts_from(path, 0, seq![Seq::<char>::empty()], true, Option::None, false, 0)
}

proof fn lemma_add_to_current_part_flatten(parts: Seq<Seq<char>>, open: bool, c: char)
    ensures
        add_to_current_part(parts, open, c).flatten() == parts.flatten().push(c),
{
    broadcast use Seq::lemma_flatten_push;

    if open && parts.len() > 0 {
        let init = parts.drop_last();
        assert(parts =~= init.push(parts.last()));
        assert(add_to_current_part(parts, open, c) =~= init.push(parts.last().push(c)));
        assert(init.push(parts.last().push(c)).flatten() =~= init.flatten() + parts.last().push(c));
        assert(parts.flatten() =~= init.flatten() + parts.last());
        assert(init.flatten() + parts.last().push(c) =~= (init.flatten() + parts.last()).push(c));
    } else {
        assert(parts.push(seq![c]).flatten() =~= parts.flatten() + seq![c]);
        assert(parts.flatten() + seq![c] =~= parts.flatten().push(c));
    }
}

proof fn lemma_path_parts_from_flatten(
    chars: Seq<char>,
    i: int,
    parts: Seq<Seq<char>>,
    open: bool,
    quote: Option<char>,
    escape: bool,
    brackets: int,
)
    requires
        0 <= i <= chars.len(),
    ensures
        path_parts_from(chars, i, parts, open, quote, escape, brackets).flatten() == parts.flatten()
            + chars.subrange(i, chars.len() as int),
    decreases chars.len() - i,
{
    broadcast use Seq::lemma_flatten_push;

    if i == chars.len() {
        assert(parts.flatten() + chars.subrange(i, chars.len() as int) =~= parts.flatten());
    } else {
        let c = chars[i];
        let n: int = chars.len() as int;
        match quote {
            Option::Some(q) => {
                let next = add_to_current_part(parts, open, c);
                lemma_add_to_current_part_flatten(parts, open, c);
                lemma_path_parts_from_flatten(
                    chars,
                    i + 1,
                    next,
                    true,
                    if c == q && !escape {
                        Option::None
                    } else {
                        quote
                    },
                    if c == '\\' {
                        !escape
                    } else {
                        escape
                    },
                    brackets,
                );
                assert(parts.flatten().push(c) + chars.subrange(i + 1, n) =~= parts.flatten()
                    + chars.subrange(i, n));
            },
            Option::None => {
                if c == '[' || c == ']' {
                    lemma_path_parts_from_flatten(
                        chars,
                        i + 1,
                        parts.push(seq![c]),
                        false,
                        quote,
                        escape,
                        if c == '[' {
                            brackets + 1
                        } else {
                            brackets - 1
                        },
                    );
                    assert(parts.flatten() + seq![c] + chars.subrange(i + 1, n) =~= parts.flatten()
                        + chars.subrange(i, n));
                } else if c == '\'' || c == '"' {
                    lemma_add_to_current_part_flatten(parts, open, c);
                    lemma_path_parts_from_flatten(
                        chars,
                        i + 1,
                        add_to_current_part(parts, open, c),
                        true,
                        Option::Some(c),
                        escape,
                        brackets,
                    );
                    assert(parts.flatten().push(c) + chars.subrange(i + 1, n) =~= parts.flatten()
                        + chars.subrange(i, n));
                } else if c == ':' && brackets == 0 && i + 2 < n && chars[i + 1] == ':' && chars[i
                    + 2] == '$' {
                    lemma_path_parts_from_flatten(
                        chars,
                        i + 3,
                        parts.push(seq![':', ':', '$']),
                        false,
                        quote,
                        escape,
                        brackets,
                    );
                    assert(parts.flatten() + seq![':', ':', '$'] + chars.subrange(i + 3, n)
                        =~= parts.flatten() + chars.subrange(i, n));
                } else if c == '-' && brackets == 0 && i + 1 < n && chars[i + 1] == '>' {
                    lemma_path_parts_from_flatten(
                        chars,
                        i + 2,
                        parts.push(seq!['-', '>']),
                        false,
                        quote,
                        escape,
                        brackets,
                    );
                    assert(parts.flatten() + seq!['-', '>'] + chars.subrange(i + 2, n)
                        =~= parts.flatten() + chars.subrange(i, n));
                } else {
                    lemma_add_to_current_part_flatten(parts, open, c);
                    lemma_path_parts_from_flatten(
                        chars,
                        i + 1,
                        add_to_current_part(parts, open, c),
                        true,
                        quote,
                        escape,
                        brackets,
                    );
                    assert(parts.flatten().push(c) + chars.subrange(i + 1, n) =~= parts.flatten()
                        + chars.subrange(i, n));
                }
            },
        }
    }
}

/// Whether `c` never starts a delimiter or a quoted key.
pub open spec fn is_plain_char(c: char) -> bool {
    c != '[' && c != ']' && c != '\'' && c != '"' && c != ':' && c != '-'
}

/// `s` added to the part being built, or as a new part when the last part
/// was a delimiter.
pub open spec fn append_run(parts: Seq<Seq<char>>, open: bool, s: Seq<char>) -> Seq<Seq<char>> {
    if s.len() == 0 {
        parts
    } else if open && parts.len() > 0 {
        parts.update(parts.len() - 1, parts.last() + s)
    } else {
        parts.push(s)
    }
}

proof fn lemma_append_run_step(parts: Seq<Seq<char>>, open: bool, c: char, s: Seq<char>)
    ensures
        append_run(add_to_current_part(parts, open, c), true, s) == append_run(
            parts,
            open,
            seq![c] + s,
        ),
{
    let next = add_to_current_part(parts, open, c);
    if open && parts.len() > 0 {
        assert(parts.last().push(c) + s =~= parts.last() + (seq![c] + s));
        if s.len() == 0 {
            assert(next =~= parts.update(parts.len() - 1, parts.last() + (seq![c] + s)));
        } else {
            assert(append_run(next, true, s) =~= parts.update(
                parts.len() - 1,
                parts.last() + (seq![c] + s),
            ));
        }
    } else {
        assert(seq![c] + s =~= seq![c].add(s));
        if s.len() == 0 {
            assert(seq![c] + s =~= seq![c]);
        } else {
            assert(append_run(next, true, s) =~= parts.push(seq![c] + s));
        }
    }
}

/// Characters that start no delimiter are added to the part being built.
proof fn lemma_plain_run(
    chars: Seq<char>,
    i: int,
    j: int,
    parts: Seq<Seq<char>>,
    open: bool,
    escape: bool,
    brackets: int,
)
    requires
        0 <= i <= j <= chars.len(),
        forall|k: int| i <= k < j ==> is_plain_char(#[trigger] chars[k]),
    ensures
        path_parts_from(chars, i, parts, open, Option::None, escape, brackets) == path_parts_from(
            chars,
            j,
            append_run(parts, open, chars.subrange(i, j)),
            open || i < j,
            Option::None,
            escape,
            brackets,
        ),
    decreases j - i,
{
    if i < j {
        let c = chars[i];
        assert(is_plain_char(c));
        let next = add_to_current_part(parts, open, c);
        lemma_plain_run(chars, i + 1, j, next, true, escape, brackets);
        lemma_append_run_step(parts, open, c, chars.subrange(i + 1, j));
        assert(seq![c] + chars.subrange(i + 1, j) =~= chars.subrange(i, j));
    } else {
        assert(chars.subrange(i, j).len() == 0);
    }
}

/// Inside a quoted key, characters other than the quote and the backslash
/// are added to the key.
proof fn lemma_quoted_run(
    chars: Seq<char>,
    i: int,
    j: int,
    parts: Seq<Seq<char>>,
    q: char,
    brackets: int,
)
    requires
        0 <= i <= j <= chars.len(),
        forall|k: int| i <= k < j ==> (#[trigger] chars[k]) != q && chars[k] != '\\',
    ensures
        path_parts_from(chars, i, parts, true, Option::Some(q), false, brackets) == path_parts_from(
            chars,
            j,
            append_run(parts, true, chars.subrange(i, j)),
            true,
            Option::Some(q),
            false,
            brackets,
        ),
    decreases j - i,
{
    if i < j {
        let c = chars[i];
        assert(c != q && c != '\\');
        let next = add_to_current_part(parts, true, c);
        lemma_quoted_run(chars, i + 1, j, next, q, brackets);
        lemma_append_run_step(parts, true, c, chars.subrange(i + 1, j));
        assert(seq![c] + chars.subrange(i + 1, j) =~= chars.subrange(i, j));
    } else {
        assert(chars.subrange(i, j).len() == 0);
    }
}

/// A closed key lowers the bracket depth again: in `base['key']->name`, the
/// `->` after the key is a part of its own, so the path splits into the base,
/// `[`, the quoted key, `]`, `->` and the name.
pub proof fn lemma_arrow_after_closed_key(base: Seq<char>, key: Seq<char>, name: Seq<char>)
    requires
        forall|k: int| 0 <= k < base.len() ==> is_plain_char(#[trigger] base[k]),
        forall|k: int| 0 <= k < name.len() ==> is_plain_char(#[trigger] name[k]),
        forall|k: int| 0 <= k < key.len() ==> (#[trigger] key[k]) != '\'' && key[k] != '\\',
        name.len() > 0,
    ensures
        path_parts(base + seq!['[', '\''] + key + seq!['\'', ']', '-', '>'] + name) == seq![
            base,
            seq!['['],
            seq!['\''] + key + seq!['\''],
            seq![']'],
            seq!['-', '>'],
            name,
        ],
{
    let p = base + seq!['[', '\''] + key + seq!['\'', ']', '-', '>'] + name;
    let nb = base.len() as int;
    let nk = key.len() as int;
    let n = p.len() as int;
    assert(n == nb + nk + 6 + name.len());
    assert forall|k: int| 0 <= k < nb implies is_plain_char(#[trigger] p[k]) by {
        assert(p[k] == base[k]);
    }
    assert(p.subrange(0, nb) =~= base);
    let start = seq![Seq::<char>::empty()];
    lemma_plain_run(p, 0, nb, start, true, false, 0);
    let parts1 = seq![base];
    if base.len() == 0 {
        assert(base =~= Seq::<char>::empty());
    } else {
        assert(start.last() + base =~= base);
    }
    assert(append_run(start, true, base) =~= parts1);
    assert(p[nb] == '[');
    let parts2 = parts1.push(seq!['[']);
    assert(path_parts_from(p, nb, parts1, true, Option::None, false, 0) == path_parts_from(
        p,
        nb + 1,
        parts2,
        false,
        Option::None,
        false,
        1,
    ));
    assert(p[nb + 1] == '\'');
    let parts3 = parts2.push(seq!['\'']);
    assert(add_to_current_part(parts2, false, '\'') == parts3);
    assert(path_parts_from(p, nb + 1, parts2, false, Option::None, false, 1) == path_parts_from(
        p,
        nb + 2,
        parts3,
        true,
        Option::Some('\''),
        false,
        1,
    ));
    assert forall|k: int| nb + 2 <= k < nb + 2 + nk implies (#[trigger] p[k]) != '\'' && p[k]
        != '\\' by {
        assert(p[k] == key[k - nb - 2]);
    }
    lemma_quoted_run(p, nb + 2, nb + 2 + nk, parts3, '\'', 1);
    assert(p.subrange(nb + 2, nb + 2 + nk) =~= key);
    let parts4 = parts2.push(seq!['\''] + key);
    assert(append_run(parts3, true, key) =~= parts4);
    assert(p[nb + 2 + nk] == '\'');
    let parts5 = parts2.push(seq!['\''] + key + seq!['\'']);
    assert(parts4.last() == seq!['\''] + key);
    assert((seq!['\''] + key).push('\'') =~= seq!['\''] + key + seq!['\'']);
    assert(add_to_current_part(parts4, true, '\'') =~= parts5);
    assert(path_parts_from(p, nb + 2 + nk, parts4, true, Option::Some('\''), false, 1)
        == path_parts_from(p, nb + 3 + nk, parts5, true, Option::None, false, 1));
    assert(p[nb + 3 + nk] == ']');
    let parts6 = parts5.push(seq![']']);
    assert(path_parts_from(p, nb + 3 + nk, parts5, true, Option::None, false, 1)
        == path_parts_from(p, nb + 4 + nk, parts6, false, Option::None, false, 0));
    assert(p[nb + 4 + nk] == '-');
    assert(p[nb + 5 + nk] == '>');
    let parts7 = parts6.push(seq!['-', '>']);
    assert(path_parts_from(p, nb + 4 + nk, parts6, false, Option::None, false, 0)
        == path_parts_from(p, nb + 6 + nk, parts7, false, Option::None, false, 0));
    assert forall|k: int| nb + 6 + nk <= k < n implies is_plain_char(#[trigger] p[k]) by {
        assert(p[k] == name[k - nb - 6 - nk]);
    }
    lemma_plain_run(p, nb + 6 + nk, n, parts7, false, false, 0);
    assert(p.subrange(nb + 6 + nk, n) =~= name);
    let parts8 = parts7.push(name);
    assert(append_run(parts7, false, name) == parts8);
    assert(path_parts_from(p, n, parts8, true, Option::None, false, 0) == parts8);
    assert(parts8 =~= seq![
        base,
        seq!['['],
        seq!['\''] + key + seq!['\''],
        seq![']'],
        seq!['-', '>'],
        name,
    ]);
}

/// In `base['key']::$name`, the `::$` after the closed key is a part of its
/// own, so the path splits into the base, `[`, the quoted key, `]`, `::$`
/// and the name.
pub proof fn lemma_static_after_closed_key(base: Seq<char>, key: Seq<char>, name: Seq<char>)
    requires
        forall|k: int| 0 <= k < base.len() ==> is_plain_char(#[trigger] base[k]),
        forall|k: int| 0 <= k < name.len() ==> is_plain_char(#[trigger] name[k]),
        forall|k: int| 0 <= k < key.len() ==> (#[trigger] key[k]) != '\'' && key[k] != '\\',
        name.len() > 0,
    ensures
        path_parts(base + seq!['[', '\''] + key + seq!['\'', ']', ':', ':', '$'] + name) == seq![
            base,
            seq!['['],
            seq!['\''] + key + seq!['\''],
            seq![']'],
            seq![':', ':', '$'],
            name,
        ],
{
    let p = base + seq!['[', '\''] + key + seq!['\'', ']', ':', ':', '$'] + name;
    let nb = base.len() as int;
    let nk = key.len() as int;
    let n = p.len() as int;
    assert(n == nb + nk + 7 + name.len());
    assert forall|k: int| 0 <= k < nb implies is_plain_char(#[trigger] p[k]) by {
        assert(p[k] == base[k]);
    }
    assert(p.subrange(0, nb) =~= base);
    let start = seq![Seq::<char>::empty()];
    lemma_plain_run(p, 0, nb, start, true, false, 0);
    let parts1 = seq![base];
    if base.len() == 0 {
        assert(base =~= Seq::<char>::empty());
    } else {
        assert(start.last() + base =~= base);
    }
    assert(append_run(start, true, base) =~= parts1);
    assert(p[nb] == '[');
    let parts2 = parts1.push(seq!['[']);
    assert(path_parts_from(p, nb, parts1, true, Option::None, false, 0) == path_parts_from(
        p,
        nb + 1,
        parts2,
        false,
        Option::None,
        false,
        1,
    ));
    assert(p[nb + 1] == '\'');
    let parts3 = parts2.push(seq!['\'']);
    assert(add_to_current_part(parts2, false, '\'') == parts3);
    assert(path_parts_from(p, nb + 1, parts2, false, Option::None, false, 1) == path_parts_from(
        p,
        nb + 2,
        parts3,
        true,
        Option::Some('\''),
        false,
        1,
    ));
    assert forall|k: int| nb + 2 <= k < nb + 2 + nk implies (#[trigger] p[k]) != '\'' && p[k]
        != '\\' by {
        assert(p[k] == key[k - nb - 2]);
    }
    lemma_quoted_run(p, nb + 2, nb + 2 + nk, parts3, '\'', 1);
    assert(p.subrange(nb + 2, nb + 2 + nk) =~= key);
    let parts4 = parts2.push(seq!['\''] + key);
    assert(append_run(parts3, true, key) =~= parts4);
    assert(p[nb + 2 + nk] == '\'');
    let parts5 = parts2.push(seq!['\''] + key + seq!['\'']);
    assert(parts4.last() == seq!['\''] + key);
    assert((seq!['\''] + key).push('\'') =~= seq!['\''] + key + seq!['\'']);
    assert(add_to_current_part(parts4, true, '\'') =~= parts5);
    assert(path_parts_from(p, nb + 2 + nk, parts4, true, Option::Some('\''), false, 1)
        == path_parts_from(p, nb + 3 + nk, parts5, true, Option::None, false, 1));
    assert(p[nb + 3 + nk] == ']');
    let parts6 = parts5.push(seq![']']);
    assert(path_parts_from(p, nb + 3 + nk, parts5, true, Option::None, false, 1)
        == path_parts_from(p, nb + 4 + nk, parts6, false, Option::None, false, 0));
    assert(p[nb + 4 + nk] == ':');
    assert(p[nb + 5 + nk] == ':');
    assert(p[nb + 6 + nk] == '$');
    let parts7 = parts6.push(seq![':', ':', '$']);
    assert(path_parts_from(p, nb + 4 + nk, parts6, false, Option::None, false, 0)
        == path_parts_from(p, nb + 7 + nk, parts7, false, Option::None, false, 0));
    assert forall|k: int| nb + 7 + nk <= k < n implies is_plain_char(#[trigger] p[k]) by {
        assert(p[k] == name[k - nb - 7 - nk]);
    }
    lemma_plain_run(p, nb + 7 + nk, n, parts7, false, false, 0);
    assert(p.subrange(nb + 7 + nk, n) =~= name);
    let parts8 = parts7.push(name);
    assert(append_run(parts7, false, name) == parts8);
    assert(path_parts_from(p, n, parts8, true, Option::None, false, 0) == parts8);
    assert(parts8 =~= seq![
        base,
        seq!['['],
        seq!['\''] + key + seq!['\''],
        seq![']'],
        seq![':', ':', '$'],
        name,
    ]);
}

/// Inside brackets nothing is split off: in `base[a->b]` the `->` belongs
/// to the key, so the path splits into the base, `[`, the key `a->b` and
/// `]`.
pub proof fn lemma_arrow_inside_key_is_kept(base: Seq<char>, a: Seq<char>, b: Seq<char>)
    requires
        forall|k: int| 0 <= k < base.len() ==> is_plain_char(#[trigger] base[k]),
        forall|k: int| 0 <= k < a.len() ==> is_plain_char(#[trigger] a[k]),
        forall|k: int| 0 <= k < b.len() ==> is_plain_char(#[trigger] b[k]),
        a.len() > 0,
    ensures
        path_parts(base + seq!['['] + a + seq!['-', '>'] + b + seq![']']) == seq![
            base,
            seq!['['],
            a + seq!['-', '>'] + b,
            seq![']'],
        ],
{
    let p = base + seq!['['] + a + seq!['-', '>'] + b + seq![']'];
    let nb = base.len() as int;
    let na = a.len() as int;
    let n = p.len() as int;
    assert(n == nb + na + b.len() + 4);
    assert forall|k: int| 0 <= k < nb implies is_plain_char(#[trigger] p[k]) by {
        assert(p[k] == base[k]);
    }
    assert(p.subrange(0, nb) =~= base);
    let start = seq![Seq::<char>::empty()];
    lemma_plain_run(p, 0, nb, start, true, false, 0);
    let parts1 = seq![base];
    if base.len() == 0 {
        assert(base =~= Seq::<char>::empty());
    } else {
        assert(start.last() + base =~= base);
    }
    assert(append_run(start, true, base) =~= parts1);
    assert(p[nb] == '[');
    let parts2 = parts1.push(seq!['[']);
    assert(path_parts_from(p, nb, parts1, true, Option::None, false, 0) == path_parts_from(
        p,
        nb + 1,
        parts2,
        false,
        Option::None,
        false,
        1,
    ));
    assert forall|k: int| nb + 1 <= k < nb + 1 + na implies is_plain_char(#[trigger] p[k]) by {
        assert(p[k] == a[k - nb - 1]);
    }
    lemma_plain_run(p, nb + 1, nb + 1 + na, parts2, false, false, 1);
    assert(p.subrange(nb + 1, nb + 1 + na) =~= a);
    let parts3 = parts2.push(a);
    assert(append_run(parts2, false, a) == parts3);
    assert(p[nb + 1 + na] == '-');
    let parts4 = parts2.push(a.push('-'));
    assert(add_to_current_part(parts3, true, '-') =~= parts4);
    assert(path_parts_from(p, nb + 1 + na, parts3, true, Option::None, false, 1)
        == path_parts_from(p, nb + 2 + na, parts4, true, Option::None, false, 1));
    let rest_end = nb + 3 + na + b.len();
    assert forall|k: int| nb + 2 + na <= k < rest_end implies is_plain_char(#[trigger] p[k]) by {
        if k == nb + 2 + na {
            assert(p[k] == '>');
        } else {
            assert(p[k] == b[k - nb - 3 - na]);
        }
    }
    lemma_plain_run(p, nb + 2 + na, rest_end, parts4, true, false, 1);
    assert(p.subrange(nb + 2 + na, rest_end) =~= seq!['>'] + b);
    let key = a + seq!['-', '>'] + b;
    let parts5 = parts2.push(key);
    assert(parts4.last() + (seq!['>'] + b) =~= key);
    assert(append_run(parts4, true, seq!['>'] + b) =~= parts5);
    assert(p[rest_end] == ']');
    let parts6 = parts5.push(seq![']']);
    assert(path_parts_from(p, rest_end, parts5, true, Option::None, false, 1) == path_parts_from(
        p,
        rest_end + 1,
        parts6,
        false,
        Option::None,
        false,
        0,
    ));
    assert(rest_end + 1 == n);
    assert(parts6 =~= seq![base, seq!['['], key, seq![']']]);
}

/// Joining the parts of a path, in order, gives back the path: splitting
/// neither loses nor adds characters.
pub proof fn lemma_path_parts_join_to_path(path: Seq<char>)
    ensures
        path_parts(path).flatten() == path,
{
    let start = seq![Seq::<char>::empty()];
    assert(start.flatten() =~= Seq::<char>::empty()) by {
        assert(start.flatten() == start.first() + start.drop_first().flatten());
        assert(start.drop_first() =~= Seq::<Seq<char>>::empty());
    }
    lemma_path_parts_from_flatten(path, 0, start, true, Option::None, false, 0);
    assert(path.subrange(0, path.len() as int) =~= path);
    assert(Seq::<char>::empty() + path =~= path);
}

/// Whether every `[` or `]` in `part` comes after a quote character in it.
pub open spec fn brackets_only_quoted(part: Seq<char>) -> bool {
    forall|j: int|
        0 <= j < part.len() && (part[j] == '[' || part[j] == ']') ==> exists|k: int|
            0 <= k < j && (part[k] == '\'' || part[k] == '"')
}

/// Whether `part` is a bracket of its own.
pub open spec fn is_bracket_part(part: Seq<char>) -> bool {
    part == seq!['['] || part == seq![']']
}

/// The shape of the parts of a path: every part after the first is
/// non-empty, and a bracket is a part of its own unless it stands inside a
/// quoted key.
pub open spec fn parts_well_shaped(parts: Seq<Seq<char>>) -> bool {
    &&& forall|k: int| 1 <= k < parts.len() ==> #[trigger] parts[k].len() > 0
    &&& forall|k: int|
        0 <= k < parts.len() ==> is_bracket_part(#[trigger] parts[k]) || brackets_only_quoted(
            parts[k],
        )
}

/// What holds of the parts while a path is being split.
pub open spec fn split_state_ok(parts: Seq<Seq<char>>, open: bool, quote: Option<char>) -> bool {
    &&& parts.len() > 0
    &&& parts_well_shaped(parts)
    &&& open ==> brackets_only_quoted(parts.last())
    &&& quote is Some ==> open && exists|k: int|
        0 <= k < parts.last().len() && (parts.last()[k] == '\'' || parts.last()[k] == '"')
}

proof fn lemma_add_keeps_shape(parts: Seq<Seq<char>>, open: bool, quote: Option<char>, c: char)
    requires
        split_state_ok(parts, open, quote),
        quote is None ==> c != '[' && c != ']',
    ensures
        split_state_ok(
            add_to_current_part(parts, open, c),
            true,
            if quote is Some {
                quote
            } else if c == '\'' || c == '"' {
                Option::Some(c)
            } else {
                Option::None
            },
        ),
        split_state_ok(add_to_current_part(parts, open, c), true, Option::None),
{
    let next = add_to_current_part(parts, open, c);
    if open {
        let last = parts.last();
        let new_last = last.push(c);
        assert(next.last() == new_last);
        assert forall|j: int|
            0 <= j < new_last.len() && (new_last[j] == '[' || new_last[j] == ']') implies exists|
            k: int,
        | 0 <= k < j && (new_last[k] == '\'' || new_last[k] == '"') by {
            if j < last.len() {
                let k = choose|k: int| 0 <= k < j && (last[k] == '\'' || last[k] == '"');
                assert(new_last[k] == last[k]);
            } else {
                let k = choose|k: int|
                    0 <= k < last.len() && (last[k] == '\'' || last[k] == '"');
                assert(new_last[k] == last[k]);
            }
        }
        assert forall|k: int| 0 <= k < next.len() implies is_bracket_part(#[trigger] next[k])
            || brackets_only_quoted(next[k]) by {
            if k < parts.len() - 1 {
                assert(next[k] == parts[k]);
            }
        }
        assert forall|k: int| 1 <= k < next.len() implies #[trigger] next[k].len() > 0 by {
            if k < parts.len() - 1 {
                assert(next[k] == parts[k]);
            }
        }
        if quote is Some || c == '\'' || c == '"' {
            if quote is Some {
                let k = choose|k: int| 0 <= k < last.len() && (last[k] == '\'' || last[k] == '"');
                assert(new_last[k] == last[k]);
            } else {
                assert(new_last[last.len() as int] == c);
            }
        }
    } else {
        let new_last = seq![c];
        assert(next.last() == new_last);
        assert forall|k: int| 0 <= k < next.len() implies is_bracket_part(#[trigger] next[k])
            || brackets_only_quoted(next[k]) by {
            if k < parts.len() {
                assert(next[k] == parts[k]);
            }
        }
        assert forall|k: int| 1 <= k < next.len() implies #[trigger] next[k].len() > 0 by {
            if k < parts.len() {
                assert(next[k] == parts[k]);
            }
        }
        if c == '\'' || c == '"' {
            assert(new_last[0] == c);
        }
    }
}

proof fn lemma_push_token_keeps_shape(parts: Seq<Seq<char>>, open: bool, token: Seq<char>)
    requires
        split_state_ok(parts, open, Option::None),
        token.len() > 0,
        is_bracket_part(token) || brackets_only_quoted(token),
    ensures
        split_state_ok(parts.push(token), false, Option::None),
{
    let next = parts.push(token);
    assert forall|k: int| 0 <= k < next.len() implies is_bracket_part(#[trigger] next[k])
        || brackets_only_quoted(next[k]) by {
        if k < parts.len() {
            assert(next[k] == parts[k]);
        }
    }
    assert forall|k: int| 1 <= k < next.len() implies #[trigger] next[k].len() > 0 by {
        if k < parts.len() {
            assert(next[k] == parts[k]);
        }
    }
}

proof fn lemma_path_parts_from_shape(
    chars: Seq<char>,
    i: int,
    parts: Seq<Seq<char>>,
    open: bool,
    quote: Option<char>,
    escape: bool,
    brackets: int,
)
    requires
        split_state_ok(parts, open, quote),
    ensures
        parts_well_shaped(path_parts_from(chars, i, parts, open, quote, escape, brackets)),
    decreases chars.len() - i,
{
    if 0 <= i < chars.len() {
        let c = chars[i];
        let n = chars.len() as int;
        match quote {
            Option::Some(q) => {
                lemma_add_keeps_shape(parts, open, quote, c);
                let next_quote = if c == q && !escape {
                    Option::None
                } else {
                    quote
                };
                lemma_path_parts_from_shape(
                    chars,
                    i + 1,
                    add_to_current_part(parts, open, c),
                    true,
                    next_quote,
                    if c == '\\' {
                        !escape
                    } else {
                        escape
                    },
                    brackets,
                );
            },
            Option::None => {
                if c == '[' || c == ']' {
                    lemma_push_token_keeps_shape(parts, open, seq![c]);
                    lemma_path_parts_from_shape(
                        chars,
                        i + 1,
                        parts.push(seq![c]),
                        false,
                        quote,
                        escape,
                        if c == '[' {
                            brackets + 1
                        } else {
                            brackets - 1
                        },
                    );
                } else if c == '\'' || c == '"' {
                    lemma_add_keeps_shape(parts, open, quote, c);
                    lemma_path_parts_from_shape(
                        chars,
                        i + 1,
                        add_to_current_part(parts, open, c),
                        true,
                        Option::Some(c),
                        escape,
                        brackets,
                    );
                } else if c == ':' && brackets == 0 && i + 2 < n && chars[i + 1] == ':' && chars[i
                    + 2] == '$' {
                    lemma_push_token_keeps_shape(parts, open, seq![':', ':', '$']);
                    lemma_path_parts_from_shape(
                        chars,
                        i + 3,
                        parts.push(seq![':', ':', '$']),
                        false,
                        quote,
                        escape,
                        brackets,
                    );
                } else if c == '-' && brackets == 0 && i + 1 < n && chars[i + 1] == '>' {
                    lemma_push_token_keeps_shape(parts, open, seq!['-', '>']);
                    lemma_path_parts_from_shape(
                        chars,
                        i + 2,
                        parts.push(seq!['-', '>']),
                        false,
                        quote,
                        escape,
                        brackets,
                    );
                } else {
                    lemma_add_keeps_shape(parts, open, quote, c);
                    lemma_path_parts_from_shape(
                        chars,
                        i + 1,
                        add_to_current_part(parts, open, c),
                        true,
                        quote,
                        escape,
                        brackets,
                    );
                }
            },
        }
    }
}

/// The parts of a path are well shaped: every part after the first base is
/// non-empty, and a `[` or `]` is always a part of its own unless it stands
/// inside a quoted key (after the opening quote in that part).
pub proof fn lemma_path_parts_shape(path: Seq<char>)
    ensures
        parts_well_shaped(path_parts(path)),
{
    let start = seq![Seq::<char>::empty()];
    lemma_path_parts_from_shape(path, 0, start, true, Option::None, false, 0);
}

/// Appends `c` to `s`: std's `String::push`.
#[verifier::external_body]
fn push_char(s: &mut String, c: char)
    ensures
        final(s)@ == old(s)@.push(c),
{
    s.push(c);
}

fn string_of(chars: &[char]) -> (r: String)
    ensures
        r@ == chars@,
{
    let mut r = String::new();
    let mut i: usize = 0;
    while i < chars.len()
        invariant
            i <= chars@.len(),
            r@ == chars@.subrange(0, i as int),
        decreases chars.len() - i,
    {
        push_char(&mut r, chars[i]);
        i += 1;
        assert(r@ =~= chars@.subrange(0, i as int));
    }
    assert(r@ =~= chars@);
    r
}

fn add_char(parts: &mut Vec<String>, open: bool, c: char)
    requires
        old(parts)@.len() > 0,
    ensures
        final(parts).deep_view() == add_to_current_part(old(parts).deep_view(), open, c),
        final(parts)@.len() > 0,
{
    if open {
        let mut last = parts.pop().unwrap();
        push_char(&mut last, c);
        parts.push(last);
        assert(parts.deep_view() =~= add_to_current_part(old(parts).deep_view(), open, c));
    } else {
        let mut s = String::new();
        push_char(&mut s, c);
        parts.push(s);
        assert(parts.deep_view() =~= add_to_current_part(old(parts).deep_view(), open, c));
    }
}

fn add_part(parts: &mut Vec<String>, part: &[char])
    ensures
        final(parts).deep_view() == old(parts).deep_view().push(part@),
        final(parts)@.len() == old(parts)@.len() + 1,
{
    let s = string_of(part);
    parts.push(s);
    assert(parts.deep_view() =~= old(parts).deep_view().push(part@));
}

/// Splits a variable path into its parts; see `path_parts`.
pub fn break_up_path_into_parts(path: &String) -> (r: Vec<String>)
    requires
        path@ != seq![':'],
    ensures
        r.deep_view() == path_parts(path@),
{
    let chars = chars_of(path.as_str());

    let mut string_char: Option<char> = None;

    let mut escape_char = false;
    let mut brackets: i128 = 0;

    let mut parts: Vec<String> = Vec::new();
    parts.push(String::new());
    let mut open = true;

    let mut i: usize = 0;
    let char_count: usize = chars.len();

    assert(parts.deep_view() =~= seq![Seq::<char>::empty()]);

    while i < char_count
        invariant
            char_count == chars@.len(),
            chars@ == path@,
            i <= char_count,
            -(i as int) <= brackets <= i,
            parts@.len() > 0,
            path_parts(path@) == path_parts_from(
                chars@,
                i as int,
                parts.deep_view(),
                open,
                string_char,
                escape_char,
                brackets as int,
            ),
        decreases char_count - i,
    {
        let ichar = chars[i];

        if let Some(string_char_inner) = string_char {
            if ichar == string_char_inner && !escape_char {
                string_char = None;
            }
            if ichar == '\\' {
                escape_char = !escape_char;
            }
            add_char(&mut parts, open, ichar);
            open = true;
            i += 1;
            continue;
        }

        if ichar == '[' || ichar == ']' {
            let delimiter = [ichar];
            assert(delimiter@ =~= seq![ichar]);
            add_part(&mut parts, &delimiter);
            open = false;
            brackets = if ichar == '[' { brackets + 1 } else { brackets - 1 };
            i += 1;
            continue;
        }

        if ichar == '\'' || ichar == '"' {
            add_char(&mut parts, open, ichar);
            open = true;
            string_char = Some(ichar);
            i += 1;
            continue;
        }

        if ichar == ':' {
            if brackets == 0 && char_count - i > 2 && chars[i + 1] == ':' && chars[i + 2] == '$' {
                let delimiter = [':', ':', '$'];
                assert(delimiter@ =~= seq![':', ':', '$']);
                add_part(&mut parts, &delimiter);
                open = false;
                i += 3;
                continue;
            }
        }

        if ichar == '-' {
            if brackets == 0 && char_count - i > 1 && chars[i + 1] == '>' {
                let delimiter = ['-', '>'];
                assert(delimiter@ =~= seq!['-', '>']);
                add_part(&mut parts, &delimiter);
                open = false;
                i += 2;
                continue;
            }
        }

        add_char(&mut parts, open, ichar);
        open = true;
        i += 1;
    }

    parts
}

} // verus!
