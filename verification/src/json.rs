//! The on-disk form of the cache: one JSON document.
//!
//! The document shape is fixed:
//! `{"urls":{<path>:{"patterns":[...],"mtime":<t>},...},"last_modified_at":<t>,"version":<v>}`.
//! `cache_json` states the exact canonical text of a cache value; the writer
//! is proved to produce it, and the reader accepts a text exactly when it is
//! the canonical serialization of a well-formed cache, returning a value that
//! serializes back to the very same text.  The serialization is proved
//! injective, so reading a document back can only yield the cache it was
//! written from, and the change detector compares timestamps exactly as they
//! were written.

use vstd::prelude::*;
use vstd::string::*;

use crate::cache::Cache;
use crate::cache::CacheV;
use crate::cache::EntryV;
use crate::cache::FileEntry;
use crate::cache::entries_view;
use crate::cache::lookup;
use crate::cache::merge_seq;
use crate::cache::lemma_rescan_unchanged;
use crate::cache::unique_paths;
use crate::text::chars_of;
use crate::text::str_eq;
use crate::text::string_of_chars;

verus! {

/// The lowercase hexadecimal digit of `n`.
pub open spec fn hex_digit(n: int) -> char {
    if n < 10 {
        ((n + 48) as u8) as char
    } else {
        ((n + 87) as u8) as char
    }
}

/// The escape of one character in a JSON string literal: quote and
/// backslash are escaped, control characters take the `\u00..` form, and
/// every other character stands as itself.
pub open spec fn escape_char(c: char) -> Seq<char> {
    if c == '"' {
        seq!['\\', '"']
    } else if c == '\\' {
        seq!['\\', '\\']
    } else if (c as u32) < 32 {
        seq!['\\', 'u', '0', '0', hex_digit((c as u32) as int / 16), hex_digit(
            (c as u32) as int % 16,
        )]
    } else {
        seq![c]
    }
}

/// The escape of a whole string body.
pub open spec fn escape(s: Seq<char>) -> Seq<char>
    decreases s.len(),
{
    if s.len() == 0 {
        Seq::empty()
    } else {
        escape_char(s[0]) + escape(s.drop_first())
    }
}

/// A JSON string literal: the escaped body between double quotes.
pub open spec fn quoted(s: Seq<char>) -> Seq<char> {
    seq!['"'] + escape(s) + seq!['"']
}

/// The comma-separated array body of the route names.
pub open spec fn patterns_json(ps: Seq<Seq<char>>) -> Seq<char>
    decreases ps.len(),
{
    if ps.len() == 0 {
        Seq::empty()
    } else if ps.len() == 1 {
        quoted(ps[0])
    } else {
        patterns_json(ps.drop_last()) + seq![','] + quoted(ps.last())
    }
}

/// One member of the `urls` object: the path bound to its entry object.
pub open spec fn entry_json(e: EntryV) -> Seq<char> {
    quoted(e.path) + ":{\"patterns\":["@ + patterns_json(e.patterns) + "],\"mtime\":"@ + quoted(
        e.mtime,
    ) + "}"@
}

/// The comma-separated members of the `urls` object, in entry order.
pub open spec fn urls_json(urls: Seq<EntryV>) -> Seq<char>
    decreases urls.len(),
{
    if urls.len() == 0 {
        Seq::empty()
    } else if urls.len() == 1 {
        entry_json(urls[0])
    } else {
        urls_json(urls.drop_last()) + seq![','] + entry_json(urls.last())
    }
}

/// The canonical serialization of a whole cache.
pub open spec fn cache_json(c: CacheV) -> Seq<char> {
    "{\"urls\":{"@ + urls_json(c.urls) + "},\"last_modified_at\":"@ + quoted(c.last_modified_at)
        + ",\"version\":"@ + quoted(c.version) + "}"@
}

/// An unchanged rescan serializes its map to the very same text: the
/// `urls` object of the document is byte-identical.
pub proof fn lemma_rescan_same_serialization(urls: Seq<EntryV>, updates: Seq<EntryV>)
    requires
        forall|k: int|
            0 <= k < updates.len() ==> lookup(urls, #[trigger] updates[k].path) == Some(
                updates[k],
            ),
    ensures
        urls_json(merge_seq(urls, updates)) == urls_json(urls),
{
    lemma_rescan_unchanged(urls, updates);
}

/// Splitting a known suffix of `v` at a concatenation boundary.
proof fn lemma_split_at(v: Seq<char>, p: int, x: Seq<char>, rest: Seq<char>)
    requires
        0 <= p <= v.len(),
        v.subrange(p, v.len() as int) == x + rest,
    ensures
        p + x.len() <= v.len(),
        v.subrange(p, p + x.len() as int) == x,
        v.subrange(p + x.len() as int, v.len() as int) == rest,
{
    let w = v.subrange(p, v.len() as int);
    assert(w.len() == x.len() + rest.len());
    assert forall|m: int| 0 <= m < x.len() implies v.subrange(p, p + x.len() as int)[m]
        == x[m] by {
        assert(v.subrange(p, p + x.len() as int)[m] == v[p + m]);
        assert(w[m] == v[p + m]);
        assert(w[m] == (x + rest)[m]);
    }
    assert(v.subrange(p, p + x.len() as int) =~= x);
    assert forall|m: int| 0 <= m < rest.len() implies v.subrange(
        p + x.len() as int,
        v.len() as int,
    )[m] == rest[m] by {
        assert(v.subrange(p + x.len() as int, v.len() as int)[m] == v[p + x.len() + m]);
        assert(w[x.len() + m] == v[p + x.len() + m]);
        assert(w[x.len() + m] == (x + rest)[x.len() + m]);
        assert((x + rest)[x.len() + m] == rest[m]);
    }
    assert(v.subrange(p + x.len() as int, v.len() as int) =~= rest);
}

/// The character of `v` at offset `m` into a known piece at position `p`.
proof fn lemma_char_at(v: Seq<char>, p: int, x: Seq<char>, m: int)
    requires
        0 <= p,
        p + x.len() <= v.len(),
        v.subrange(p, p + x.len() as int) == x,
        0 <= m < x.len(),
    ensures
        v[p + m] == x[m],
{
    assert(v.subrange(p, p + x.len() as int)[m] == v[p + m]);
}

/// Escaping distributes over concatenation.
proof fn lemma_escape_concat(a: Seq<char>, b: Seq<char>)
    ensures
        escape(a + b) == escape(a) + escape(b),
    decreases a.len(),
{
    if a.len() == 0 {
        assert(a + b =~= b);
        assert(escape(a) + escape(b) =~= escape(b));
    } else {
        lemma_escape_concat(a.drop_first(), b);
        assert((a + b).drop_first() =~= a.drop_first() + b);
        assert((a + b)[0] == a[0]);
        assert(escape(a + b) =~= escape(a) + escape(b));
    }
}

proof fn lemma_hex_digit_injective(m: int, n: int)
    requires
        0 <= m < 16,
        0 <= n < 16,
        hex_digit(m) == hex_digit(n),
    ensures
        m == n,
{
    assert(hex_digit(m) as u32 == if m < 10 {
        m + 48
    } else {
        m + 87
    });
    assert(hex_digit(n) as u32 == if n < 10 {
        n + 48
    } else {
        n + 87
    });
}

/// Cancelling a common prefix of two equal concatenations.
proof fn lemma_concat_cancel(x: Seq<char>, r1: Seq<char>, r2: Seq<char>)
    requires
        x + r1 == x + r2,
    ensures
        r1 == r2,
{
    let xl = x.len() as int;
    assert((x + r1).len() == x.len() + r1.len());
    assert((x + r2).len() == x.len() + r2.len());
    assert(r1.len() == r2.len());
    assert forall|m: int| 0 <= m < r1.len() implies r1[m] == r2[m] by {
        assert((x + r1)[xl + m] == r1[m]);
        assert((x + r2)[xl + m] == (x + r1)[xl + m]);
        assert((x + r2)[xl + m] == r2[m]);
    }
    assert(r1 =~= r2);
}

/// The escape of a character never begins with a bare quote.
proof fn lemma_escape_char_head(c: char)
    ensures
        escape_char(c).len() >= 1,
        escape_char(c)[0] != '"',
        c != '"' && c != '\\' && (c as u32) >= 32 ==> escape_char(c) == seq![c],
{
}

/// One escape unit at the front of equal texts reads the same character.
proof fn lemma_escape_char_prefix(a: char, b: char, r1: Seq<char>, r2: Seq<char>)
    requires
        escape_char(a) + r1 == escape_char(b) + r2,
    ensures
        a == b,
        r1 == r2,
{
    let w = escape_char(a) + r1;
    assert forall|t: int| 0 <= t < escape_char(a).len() implies w[t] == escape_char(a)[t] by {}
    assert forall|t: int| 0 <= t < escape_char(b).len() implies w[t] == escape_char(b)[t] by {
        assert((escape_char(b) + r2)[t] == escape_char(b)[t]);
    }
    let pa = !(a == '"' || a == '\\' || (a as u32) < 32);
    let pb = !(b == '"' || b == '\\' || (b as u32) < 32);
    if pa && pb {
        assert(w[0] == a && w[0] == b);
    } else if pa && !pb {
        assert(w[0] == a && w[0] == '\\');
        assert(false);
    } else if !pa && pb {
        assert(w[0] == b && w[0] == '\\');
        assert(false);
    } else {
        assert(escape_char(a)[1] == w[1] && escape_char(b)[1] == w[1]);
        if a == '"' {
            assert(w[1] == '"');
            assert(b == '"');
        } else if a == '\\' {
            assert(w[1] == '\\');
            assert(b == '\\');
        } else {
            assert(w[1] == 'u');
            assert(b != '"' && b != '\\');
            assert(w[4] == hex_digit((a as u32) as int / 16));
            assert(w[4] == hex_digit((b as u32) as int / 16));
            assert(w[5] == hex_digit((a as u32) as int % 16));
            assert(w[5] == hex_digit((b as u32) as int % 16));
            lemma_hex_digit_injective((a as u32) as int / 16, (b as u32) as int / 16);
            lemma_hex_digit_injective((a as u32) as int % 16, (b as u32) as int % 16);
            assert(a as u32 == b as u32);
            vstd::utf8::char_u32_cast(a, a as u32);
            vstd::utf8::char_u32_cast(b, a as u32);
        }
    }
    assert(escape_char(a) == escape_char(b));
    lemma_concat_cancel(escape_char(a), r1, r2);
}

/// An escaped body terminated by a bare quote is read back uniquely.
proof fn lemma_escape_body_injective(a: Seq<char>, b: Seq<char>, x: Seq<char>, y: Seq<char>)
    requires
        escape(a) + (seq!['"'] + x) == escape(b) + (seq!['"'] + y),
    ensures
        a == b,
        x == y,
    decreases a.len() + b.len(),
{
    let w = escape(a) + (seq!['"'] + x);
    if a.len() == 0 {
        assert(w[0] == '"');
        if b.len() > 0 {
            assert(escape(b) == escape_char(b[0]) + escape(b.drop_first()));
            lemma_escape_char_head(b[0]);
            assert((escape(b) + (seq!['"'] + y))[0] == escape_char(b[0])[0]);
            assert(false);
        }
        assert(a =~= b);
        lemma_concat_cancel(seq!['"'], x, y);
    } else if b.len() == 0 {
        assert(w[0] == escape_char(a[0])[0]) by {
            assert(escape(a) == escape_char(a[0]) + escape(a.drop_first()));
            lemma_escape_char_head(a[0]);
        }
        lemma_escape_char_head(a[0]);
        assert((escape(b) + (seq!['"'] + y))[0] == '"');
        assert(false);
    } else {
        assert(escape(a) == escape_char(a[0]) + escape(a.drop_first()));
        assert(escape(b) == escape_char(b[0]) + escape(b.drop_first()));
        assert(escape(a) + (seq!['"'] + x) =~= escape_char(a[0]) + (escape(a.drop_first())
            + (seq!['"'] + x)));
        assert(escape(b) + (seq!['"'] + y) =~= escape_char(b[0]) + (escape(b.drop_first())
            + (seq!['"'] + y)));
        lemma_escape_char_prefix(
            a[0],
            b[0],
            escape(a.drop_first()) + (seq!['"'] + x),
            escape(b.drop_first()) + (seq!['"'] + y),
        );
        lemma_escape_body_injective(a.drop_first(), b.drop_first(), x, y);
        assert(a.len() == b.len());
        assert forall|m: int| 0 <= m < a.len() implies a[m] == b[m] by {
            if m > 0 {
                assert(a.drop_first()[m - 1] == a[m]);
                assert(b.drop_first()[m - 1] == b[m]);
            }
        }
        assert(a =~= b);
    }
}

/// A quoted literal at the front of equal texts reads the same string.
proof fn lemma_quoted_prefix(a: Seq<char>, b: Seq<char>, x: Seq<char>, y: Seq<char>)
    requires
        quoted(a) + x == quoted(b) + y,
    ensures
        a == b,
        x == y,
{
    assert(quoted(a) + x =~= seq!['"'] + (escape(a) + (seq!['"'] + x)));
    assert(quoted(b) + y =~= seq!['"'] + (escape(b) + (seq!['"'] + y)));
    lemma_concat_cancel(seq!['"'], escape(a) + (seq!['"'] + x), escape(b) + (seq!['"'] + y));
    lemma_escape_body_injective(a, b, x, y);
}

/// A patterns array terminated by `]` is read back uniquely.
proof fn lemma_patterns_body_injective(
    a: Seq<Seq<char>>,
    b: Seq<Seq<char>>,
    x: Seq<char>,
    y: Seq<char>,
)
    requires
        patterns_json(a) + (seq![']'] + x) == patterns_json(b) + (seq![']'] + y),
    ensures
        a == b,
        x == y,
    decreases a.len() + b.len(),
{
    let w = patterns_json(a) + (seq![']'] + x);
    if a.len() == 0 && b.len() == 0 {
        assert(a =~= b);
        assert(patterns_json(a) + (seq![']'] + x) =~= seq![']'] + x);
        assert(patterns_json(b) + (seq![']'] + y) =~= seq![']'] + y);
        lemma_concat_cancel(seq![']'], x, y);
    } else if a.len() == 0 {
        assert(w[0] == ']');
        lemma_patterns_json_cons(b);
        assert(patterns_json(b)[0] == quoted(b[0])[0]);
        assert((patterns_json(b) + (seq![']'] + y))[0] == patterns_json(b)[0]);
        assert(quoted(b[0])[0] == '"');
        assert(false);
    } else if b.len() == 0 {
        assert(w[0] == ']') by {
            assert((patterns_json(b) + (seq![']'] + y))[0] == ']');
        }
        lemma_patterns_json_cons(a);
        assert(patterns_json(a)[0] == quoted(a[0])[0]);
        assert(w[0] == patterns_json(a)[0]);
        assert(quoted(a[0])[0] == '"');
        assert(false);
    } else {
        lemma_patterns_json_cons(a);
        lemma_patterns_json_cons(b);
        let sa: Seq<char> = if a.len() == 1 {
            seq![']'] + x
        } else {
            seq![','] + (patterns_json(a.drop_first()) + (seq![']'] + x))
        };
        let sb: Seq<char> = if b.len() == 1 {
            seq![']'] + y
        } else {
            seq![','] + (patterns_json(b.drop_first()) + (seq![']'] + y))
        };
        assert(patterns_json(a) + (seq![']'] + x) =~= quoted(a[0]) + sa);
        assert(patterns_json(b) + (seq![']'] + y) =~= quoted(b[0]) + sb);
        lemma_quoted_prefix(a[0], b[0], sa, sb);
        if a.len() == 1 && b.len() == 1 {
            lemma_concat_cancel(seq![']'], x, y);
            assert(a =~= b);
        } else if a.len() == 1 {
            assert(sa[0] == ']' && sb[0] == ',');
            assert(false);
        } else if b.len() == 1 {
            assert(sa[0] == ',' && sb[0] == ']');
            assert(false);
        } else {
            lemma_concat_cancel(
                seq![','],
                patterns_json(a.drop_first()) + (seq![']'] + x),
                patterns_json(b.drop_first()) + (seq![']'] + y),
            );
            lemma_patterns_body_injective(a.drop_first(), b.drop_first(), x, y);
            assert(a.len() == b.len());
            assert forall|m: int| 0 <= m < a.len() implies a[m] == b[m] by {
                if m > 0 {
                    assert(a.drop_first()[m - 1] == a[m]);
                    assert(b.drop_first()[m - 1] == b[m]);
                }
            }
            assert(a =~= b);
        }
    }
}

/// One member of the `urls` object at the front of equal texts reads the
/// same entry.
proof fn lemma_entry_json_prefix(e1: EntryV, e2: EntryV, r1: Seq<char>, r2: Seq<char>)
    requires
        entry_json(e1) + r1 == entry_json(e2) + r2,
    ensures
        e1 == e2,
        r1 == r2,
{
    reveal_strlit("],\"mtime\":");
    reveal_strlit(",\"mtime\":");
    reveal_strlit("}");
    assert("],\"mtime\":"@ =~= seq![']'] + ",\"mtime\":"@);
    let t1 = ",\"mtime\":"@ + (quoted(e1.mtime) + ("}"@ + r1));
    let t2 = ",\"mtime\":"@ + (quoted(e2.mtime) + ("}"@ + r2));
    assert(entry_json(e1) + r1 =~= quoted(e1.path) + (":{\"patterns\":["@ + (patterns_json(
        e1.patterns,
    ) + (seq![']'] + t1))));
    assert(entry_json(e2) + r2 =~= quoted(e2.path) + (":{\"patterns\":["@ + (patterns_json(
        e2.patterns,
    ) + (seq![']'] + t2))));
    lemma_quoted_prefix(
        e1.path,
        e2.path,
        ":{\"patterns\":["@ + (patterns_json(e1.patterns) + (seq![']'] + t1)),
        ":{\"patterns\":["@ + (patterns_json(e2.patterns) + (seq![']'] + t2)),
    );
    lemma_concat_cancel(
        ":{\"patterns\":["@,
        patterns_json(e1.patterns) + (seq![']'] + t1),
        patterns_json(e2.patterns) + (seq![']'] + t2),
    );
    lemma_patterns_body_injective(e1.patterns, e2.patterns, t1, t2);
    lemma_concat_cancel(",\"mtime\":"@, quoted(e1.mtime) + ("}"@ + r1), quoted(e2.mtime) + ("}"@
        + r2));
    lemma_quoted_prefix(e1.mtime, e2.mtime, "}"@ + r1, "}"@ + r2);
    lemma_concat_cancel("}"@, r1, r2);
    assert(e1 =~= e2);
}

/// The members of the `urls` object, terminated by `}`, are read back
/// uniquely.
proof fn lemma_urls_body_injective(a: Seq<EntryV>, b: Seq<EntryV>, x: Seq<char>, y: Seq<char>)
    requires
        urls_json(a) + (seq!['}'] + x) == urls_json(b) + (seq!['}'] + y),
    ensures
        a == b,
        x == y,
    decreases a.len() + b.len(),
{
    let w = urls_json(a) + (seq!['}'] + x);
    if a.len() == 0 && b.len() == 0 {
        assert(a =~= b);
        assert(urls_json(a) + (seq!['}'] + x) =~= seq!['}'] + x);
        assert(urls_json(b) + (seq!['}'] + y) =~= seq!['}'] + y);
        lemma_concat_cancel(seq!['}'], x, y);
    } else if a.len() == 0 {
        assert(w[0] == '}');
        lemma_urls_json_cons(b);
        assert(urls_json(b)[0] == entry_json(b[0])[0]);
        assert((urls_json(b) + (seq!['}'] + y))[0] == urls_json(b)[0]);
        assert(entry_json(b[0])[0] == quoted(b[0].path)[0]);
        assert(false);
    } else if b.len() == 0 {
        assert(w[0] == '}') by {
            assert((urls_json(b) + (seq!['}'] + y))[0] == '}');
        }
        lemma_urls_json_cons(a);
        assert(urls_json(a)[0] == entry_json(a[0])[0]);
        assert(w[0] == urls_json(a)[0]);
        assert(entry_json(a[0])[0] == quoted(a[0].path)[0]);
        assert(false);
    } else {
        lemma_urls_json_cons(a);
        lemma_urls_json_cons(b);
        let sa: Seq<char> = if a.len() == 1 {
            seq!['}'] + x
        } else {
            seq![','] + (urls_json(a.drop_first()) + (seq!['}'] + x))
        };
        let sb: Seq<char> = if b.len() == 1 {
            seq!['}'] + y
        } else {
            seq![','] + (urls_json(b.drop_first()) + (seq!['}'] + y))
        };
        assert(urls_json(a) + (seq!['}'] + x) =~= entry_json(a[0]) + sa);
        assert(urls_json(b) + (seq!['}'] + y) =~= entry_json(b[0]) + sb);
        lemma_entry_json_prefix(a[0], b[0], sa, sb);
        if a.len() == 1 && b.len() == 1 {
            lemma_concat_cancel(seq!['}'], x, y);
            assert(a =~= b);
        } else if a.len() == 1 {
            assert(sa[0] == '}' && sb[0] == ',');
            assert(false);
        } else if b.len() == 1 {
            assert(sa[0] == ',' && sb[0] == '}');
            assert(false);
        } else {
            lemma_concat_cancel(
                seq![','],
                urls_json(a.drop_first()) + (seq!['}'] + x),
                urls_json(b.drop_first()) + (seq!['}'] + y),
            );
            lemma_urls_body_injective(a.drop_first(), b.drop_first(), x, y);
            assert(a.len() == b.len());
            assert forall|m: int| 0 <= m < a.len() implies a[m] == b[m] by {
                if m > 0 {
                    assert(a.drop_first()[m - 1] == a[m]);
                    assert(b.drop_first()[m - 1] == b[m]);
                }
            }
            assert(a =~= b);
        }
    }
}

/// The cache document determines the cache: equal serializations mean equal
/// values.  Together with the reader's contract this is the round trip —
/// reading back the serialization of a cache can only yield that cache,
/// entries, timestamps and version alike.
pub proof fn lemma_cache_json_injective(c1: CacheV, c2: CacheV)
    requires
        cache_json(c1) == cache_json(c2),
    ensures
        c1 == c2,
{
    lemma_doc_decomp(c1);
    lemma_doc_decomp(c2);
    lemma_concat_cancel(
        "{\"urls\":{"@,
        urls_json(c1.urls) + (seq!['}'] + doc_tail2(c1)),
        urls_json(c2.urls) + (seq!['}'] + doc_tail2(c2)),
    );
    lemma_urls_body_injective(c1.urls, c2.urls, doc_tail2(c1), doc_tail2(c2));
    lemma_concat_cancel(
        ",\"last_modified_at\":"@,
        quoted(c1.last_modified_at) + (",\"version\":"@ + (quoted(c1.version) + "}"@)),
        quoted(c2.last_modified_at) + (",\"version\":"@ + (quoted(c2.version) + "}"@)),
    );
    lemma_quoted_prefix(
        c1.last_modified_at,
        c2.last_modified_at,
        ",\"version\":"@ + (quoted(c1.version) + "}"@),
        ",\"version\":"@ + (quoted(c2.version) + "}"@),
    );
    lemma_concat_cancel(",\"version\":"@, quoted(c1.version) + "}"@, quoted(c2.version) + "}"@);
    lemma_quoted_prefix(c1.version, c2.version, "}"@, "}"@);
    assert(c1 =~= c2);
}

/// Under the premise that `quoted(gs)` stands at `i` in `v`: the shape of
/// the literal around the escaped body.
proof fn lemma_quoted_frame(v: Seq<char>, i: int, gs: Seq<char>)
    requires
        0 <= i,
        i + quoted(gs).len() <= v.len(),
        v.subrange(i, i + quoted(gs).len() as int) == quoted(gs),
    ensures
        quoted(gs).len() == escape(gs).len() + 2,
        v[i] == '"',
        v[i + 1 + escape(gs).len()] == '"',
{
    lemma_char_at(v, i, quoted(gs), 0);
    lemma_char_at(v, i, quoted(gs), 1 + escape(gs).len() as int);
    assert(quoted(gs)[1 + escape(gs).len() as int] == seq!['"'][0]);
}

/// Escaping a prefix contributes a prefix of the whole escape.
proof fn lemma_escape_take(gs: Seq<char>, k: int)
    requires
        0 <= k <= gs.len(),
    ensures
        escape(gs) == escape(gs.subrange(0, k)) + escape(gs.subrange(k, gs.len() as int)),
        escape(gs.subrange(0, k)).len() <= escape(gs).len(),
{
    lemma_escape_concat(gs.subrange(0, k), gs.subrange(k, gs.len() as int));
    assert(gs.subrange(0, k) + gs.subrange(k, gs.len() as int) =~= gs);
}

/// Under the premise that `quoted(gs)` stands at `i` in `v`: the characters
/// of `v` across the escape of `gs[k]`.
proof fn lemma_quoted_unit(v: Seq<char>, i: int, gs: Seq<char>, k: int)
    requires
        0 <= i,
        i + quoted(gs).len() <= v.len(),
        v.subrange(i, i + quoted(gs).len() as int) == quoted(gs),
        0 <= k < gs.len(),
    ensures
        escape(gs.subrange(0, k)).len() + escape_char(gs[k]).len() <= escape(gs).len(),
        forall|t: int|
            0 <= t < escape_char(gs[k]).len() ==> v[i + 1 + escape(gs.subrange(0, k)).len() + t]
                == escape_char(gs[k])[t],
{
    lemma_escape_take(gs, k);
    let e1 = escape(gs.subrange(0, k));
    let sk = gs.subrange(k, gs.len() as int);
    assert(sk[0] == gs[k]);
    assert(sk.drop_first() =~= gs.subrange(k + 1, gs.len() as int));
    assert(escape(sk) == escape_char(gs[k]) + escape(gs.subrange(k + 1, gs.len() as int)));
    assert forall|t: int| 0 <= t < escape_char(gs[k]).len() implies v[i + 1 + e1.len() + t]
        == escape_char(gs[k])[t] by {
        let off = 1 + e1.len() as int + t;
        lemma_char_at(v, i, quoted(gs), off);
        assert(quoted(gs)[off] == escape(gs)[off - 1]);
        assert(escape(gs)[off - 1] == (e1 + escape(sk))[off - 1]);
        assert((e1 + escape(sk))[off - 1] == escape(sk)[t]);
        assert(escape(sk)[t] == escape_char(gs[k])[t]);
    }
}

/// `urls_json` unfolded at the front: the first member, then a comma and
/// the rest.
proof fn lemma_urls_json_cons(urls: Seq<EntryV>)
    requires
        urls.len() > 0,
    ensures
        urls.len() == 1 ==> urls_json(urls) == entry_json(urls[0]),
        urls.len() > 1 ==> urls_json(urls) == entry_json(urls[0]) + (seq![','] + urls_json(
            urls.drop_first(),
        )),
    decreases urls.len(),
{
    if urls.len() > 1 {
        lemma_urls_json_cons(urls.drop_last());
        assert(urls.drop_last()[0] == urls[0]);
        assert(urls.drop_first().last() == urls.last());
        if urls.len() == 2 {
            assert(urls.drop_first() =~= seq![urls[1]]);
            assert(urls.drop_last() =~= seq![urls[0]]);
            assert(urls_json(urls) =~= entry_json(urls[0]) + (seq![','] + urls_json(
                urls.drop_first(),
            )));
        } else {
            assert(urls.drop_last().drop_first() =~= urls.drop_first().drop_last());
            assert(urls_json(urls) == urls_json(urls.drop_last()) + seq![','] + entry_json(
                urls.last(),
            ));
            assert(urls_json(urls.drop_first()) == urls_json(urls.drop_first().drop_last())
                + seq![','] + entry_json(urls.drop_first().last()));
            assert(urls_json(urls) =~= entry_json(urls[0]) + (seq![','] + urls_json(
                urls.drop_first(),
            )));
        }
    }
}

/// `patterns_json` unfolded at the front.
proof fn lemma_patterns_json_cons(ps: Seq<Seq<char>>)
    requires
        ps.len() > 0,
    ensures
        ps.len() == 1 ==> patterns_json(ps) == quoted(ps[0]),
        ps.len() > 1 ==> patterns_json(ps) == quoted(ps[0]) + (seq![','] + patterns_json(
            ps.drop_first(),
        )),
    decreases ps.len(),
{
    if ps.len() > 1 {
        lemma_patterns_json_cons(ps.drop_last());
        assert(ps.drop_last()[0] == ps[0]);
        assert(ps.drop_first().last() == ps.last());
        if ps.len() == 2 {
            assert(ps.drop_first() =~= seq![ps[1]]);
            assert(ps.drop_last() =~= seq![ps[0]]);
            assert(patterns_json(ps) =~= quoted(ps[0]) + (seq![','] + patterns_json(
                ps.drop_first(),
            )));
        } else {
            assert(ps.drop_last().drop_first() =~= ps.drop_first().drop_last());
            assert(patterns_json(ps) == patterns_json(ps.drop_last()) + seq![','] + quoted(
                ps.last(),
            ));
            assert(patterns_json(ps.drop_first()) == patterns_json(ps.drop_first().drop_last())
                + seq![','] + quoted(ps.drop_first().last()));
            assert(patterns_json(ps) =~= quoted(ps[0]) + (seq![','] + patterns_json(
                ps.drop_first(),
            )));
        }
    }
}

/// The closing text of the document, after the `urls` object's brace.
spec fn doc_tail2(c: CacheV) -> Seq<char> {
    ",\"last_modified_at\":"@ + (quoted(c.last_modified_at) + (",\"version\":"@ + (quoted(
        c.version,
    ) + "}"@)))
}

/// The whole document, right-nested for parsing: the opening text, the
/// members, the brace, and the closing text.
proof fn lemma_doc_decomp(c: CacheV)
    ensures
        cache_json(c) == "{\"urls\":{"@ + (urls_json(c.urls) + (seq!['}'] + doc_tail2(c))),
{
    reveal_strlit("},\"last_modified_at\":");
    reveal_strlit(",\"last_modified_at\":");
    assert("},\"last_modified_at\":"@ =~= seq!['}'] + ",\"last_modified_at\":"@);
    assert(cache_json(c) =~= "{\"urls\":{"@ + (urls_json(c.urls) + (seq!['}'] + doc_tail2(c))));
}

/// The first character of `v` at `p`, where a known piece stands there.
proof fn lemma_first_char(v: Seq<char>, p: int, x: Seq<char>, rest: Seq<char>)
    requires
        0 <= p <= v.len(),
        v.subrange(p, v.len() as int) == x + rest,
        x.len() > 0,
    ensures
        p < v.len(),
        v[p] == x[0],
{
    lemma_split_at(v, p, x, rest);
    lemma_char_at(v, p, x, 0);
}

proof fn lemma_escape_snoc(s: Seq<char>)
    requires
        s.len() > 0,
    ensures
        escape(s) == escape(s.drop_last()) + escape_char(s.last()),
    decreases s.len(),
{
    if s.len() == 1 {
        assert(s.drop_last() =~= Seq::<char>::empty());
        assert(s.drop_first() =~= Seq::<char>::empty());
        assert(escape(s.drop_last()) + escape_char(s.last()) =~= escape_char(s[0]) + escape(
            s.drop_first(),
        ));
    } else {
        lemma_escape_snoc(s.drop_first());
        assert(s.drop_first().drop_last() =~= s.drop_last().drop_first());
        assert(s.drop_first().last() == s.last());
        assert(s.drop_last()[0] == s[0]);
        assert(escape(s) =~= escape(s.drop_last()) + escape_char(s.last()));
    }
}

/// The lowercase hexadecimal digit of `n`.
fn hex_digit_exec(n: u8) -> (c: char)
    requires
        n < 16,
    ensures
        c == hex_digit(n as int),
{
    if n < 10 {
        (n + 48) as char
    } else {
        (n + 87) as char
    }
}

/// Appends the escape of `c` to `out`.
fn escape_push(out: &mut Vec<char>, c: char)
    ensures
        final (out)@ == old(out)@ + escape_char(c),
{
    if c == '"' {
        out.push('\\');
        out.push('"');
        proof {
            assert(out@ =~= old(out)@ + escape_char(c));
        }
    } else if c == '\\' {
        out.push('\\');
        out.push('\\');
        proof {
            assert(out@ =~= old(out)@ + escape_char(c));
        }
    } else if (c as u32) < 32 {
        let code = c as u32;
        out.push('\\');
        out.push('u');
        out.push('0');
        out.push('0');
        out.push(hex_digit_exec((code / 16) as u8));
        out.push(hex_digit_exec((code % 16) as u8));
        proof {
            assert(out@ =~= old(out)@ + escape_char(c));
        }
    } else {
        out.push(c);
        proof {
            assert(out@ =~= old(out)@ + escape_char(c));
        }
    }
}

/// Appends the JSON string literal of `s` to `out`.
fn append_quoted(out: &mut Vec<char>, s: &str)
    ensures
        final (out)@ == old(out)@ + quoted(s@),
{
    out.push('"');
    let t = chars_of(s);
    let mut i: usize = 0;
    while i < t.len()
        invariant
            i <= t@.len(),
            t@ == s@,
            out@ == old(out)@ + seq!['"'] + escape(s@.subrange(0, i as int)),
        decreases t@.len() - i,
    {
        escape_push(out, t[i]);
        proof {
            let post = s@.subrange(0, i as int + 1);
            assert(post.drop_last() =~= s@.subrange(0, i as int));
            assert(post.last() == s@[i as int]);
            lemma_escape_snoc(post);
            assert(out@ =~= old(out)@ + seq!['"'] + escape(post));
        }
        i = i + 1;
    }
    proof {
        assert(s@.subrange(0, s@.len() as int) =~= s@);
    }
    out.push('"');
    proof {
        assert(out@ =~= old(out)@ + quoted(s@));
    }
}

/// Appends the characters of the literal piece `s` to `out`.
fn append_piece(out: &mut Vec<char>, s: &str)
    ensures
        final (out)@ == old(out)@ + s@,
{
    crate::text::append_str(out, s);
}

/// Appends one `urls` member for `e` to `out`.
fn append_entry(out: &mut Vec<char>, e: &FileEntry)
    ensures
        final (out)@ == old(out)@ + entry_json(e@),
{
    append_quoted(out, e.path.as_str());
    append_piece(out, ":{\"patterns\":[");
    let m = e.patterns.len();
    let ghost base = out@;
    let mut j: usize = 0;
    while j < m
        invariant
            j <= m,
            m == e.patterns@.len(),
            out@ == base + patterns_json(e@.patterns.subrange(0, j as int)),
            e@.patterns == e.patterns.deep_view(),
        decreases m - j,
    {
        if j > 0 {
            out.push(',');
        }
        append_quoted(out, e.patterns[j].as_str());
        proof {
            let ps = e@.patterns;
            let post = ps.subrange(0, j as int + 1);
            assert(post.drop_last() =~= ps.subrange(0, j as int));
            assert(ps[j as int] == e.patterns@[j as int]@);
            assert(post.last() == ps[j as int]);
            if j == 0 {
                assert(patterns_json(post) == quoted(ps[0]));
                assert(out@ =~= base + patterns_json(post));
            } else {
                assert(patterns_json(post) == patterns_json(post.drop_last()) + seq![',']
                    + quoted(post.last()));
                assert(out@ =~= base + patterns_json(post));
            }
        }
        j = j + 1;
    }
    proof {
        assert(e@.patterns.subrange(0, m as int) =~= e@.patterns);
    }
    append_piece(out, "],\"mtime\":");
    append_quoted(out, e.mtime.as_str());
    append_piece(out, "}");
    proof {
        assert(out@ =~= old(out)@ + entry_json(e@));
    }
}

impl Cache {
    /// The canonical JSON document of this cache.
    pub fn to_json(&self) -> (r: String)
        ensures
            r@ == cache_json(self@),
    {
        let mut out: Vec<char> = Vec::new();
        append_piece(&mut out, "{\"urls\":{");
        let n = self.urls.len();
        let mut i: usize = 0;
        while i < n
            invariant
                i <= n,
                n == self.urls@.len(),
                out@ == "{\"urls\":{"@ + urls_json(entries_view(self.urls@).subrange(0, i as int)),
            decreases n - i,
        {
            if i > 0 {
                out.push(',');
            }
            append_entry(&mut out, &self.urls[i]);
            proof {
                let ev = entries_view(self.urls@);
                let post = ev.subrange(0, i as int + 1);
                assert(post.drop_last() =~= ev.subrange(0, i as int));
                assert(ev[i as int] == self.urls@[i as int]@);
                assert(post.last() == ev[i as int]);
                if i == 0 {
                    assert(urls_json(post) == entry_json(ev[0]));
                    assert(out@ =~= "{\"urls\":{"@ + urls_json(post));
                } else {
                    assert(urls_json(post) == urls_json(post.drop_last()) + seq![','] + entry_json(
                        post.last(),
                    ));
                    assert(out@ =~= "{\"urls\":{"@ + urls_json(post));
                }
            }
            i = i + 1;
        }
        proof {
            assert(entries_view(self.urls@).subrange(0, n as int) =~= entries_view(self.urls@));
        }
        append_piece(&mut out, "},\"last_modified_at\":");
        append_quoted(&mut out, self.last_modified_at.as_str());
        append_piece(&mut out, ",\"version\":");
        append_quoted(&mut out, self.version.as_str());
        append_piece(&mut out, "}");
        proof {
            assert(out@ =~= cache_json(self@));
        }
        string_of_chars(&out)
    }
}

/// Steps past the literal `lit` at position `i`, if it stands there.
fn expect_lit(v: &Vec<char>, i: usize, lit: &str) -> (r: Option<usize>)
    ensures
        r matches Some(j) ==> i <= j <= v@.len(),
        (i + lit@.len() <= v@.len() && v@.subrange(i as int, i + lit@.len()) == lit@) ==> (
        r matches Some(j) && j == i + lit@.len()),
{
    let t = chars_of(lit);
    if i > v.len() || v.len() - i < t.len() {
        return None;
    }
    let mut k: usize = 0;
    while k < t.len()
        invariant
            k <= t@.len(),
            i + t@.len() <= v@.len(),
            v@.len() <= usize::MAX,
            t@ == lit@,
        decreases t@.len() - k,
    {
        if v[i + k] != t[k] {
            proof {
                if i + lit@.len() <= v@.len() && v@.subrange(i as int, i + lit@.len()) == lit@ {
                    lemma_char_at(v@, i as int, lit@, k as int);
                    assert(false);
                }
            }
            return None;
        }
        k = k + 1;
    }
    Some(i + t.len())
}

/// The value of a hexadecimal digit character, if it is one.
fn hex_val(c: char) -> (r: Option<u8>)
    ensures
        r matches Some(n) ==> n < 16,
        forall|n: int| 0 <= n < 16 && c == hex_digit(n) ==> r == Some(n as u8),
{
    let u = c as u32;
    if 48 <= u && u <= 57 {
        Some((u - 48) as u8)
    } else if 97 <= u && u <= 102 {
        Some((u - 87) as u8)
    } else {
        None
    }
}

/// Reads a JSON string literal starting at `i`: the unescaped body and the
/// position after the closing quote.  Only the canonical escapes of the
/// writer are accepted; in particular, where `quoted(expected)` stands at
/// `i`, exactly `expected` is read.
fn parse_string(v: &Vec<char>, i: usize, expected: Ghost<Seq<char>>) -> (r: Option<
    (String, usize),
>)
    ensures
        r matches Some(p) ==> i < p.1 <= v@.len(),
        (i + quoted(expected@).len() <= v@.len() && v@.subrange(
            i as int,
            i + quoted(expected@).len(),
        ) == quoted(expected@)) ==> (r matches Some(p) && p.0@ == expected@ && p.1 == i + quoted(
            expected@,
        ).len()),
{
    let ghost gs = expected@;
    let ghost pp = i + quoted(gs).len() <= v@.len() && v@.subrange(
        i as int,
        i as int + quoted(gs).len() as int,
    ) == quoted(gs);
    if i >= v.len() || v[i] != '"' {
        proof {
            if pp {
                lemma_quoted_frame(v@, i as int, gs);
            }
        }
        return None;
    }
    let mut acc: Vec<char> = Vec::new();
    let ghost mut k: int = 0;
    let mut j: usize = i + 1;
    while j < v.len()
        invariant
            i < j <= v@.len(),
            v@.len() <= usize::MAX,
            gs == expected@,
            pp == (i + quoted(gs).len() <= v@.len() && v@.subrange(
                i as int,
                i as int + quoted(gs).len() as int,
            ) == quoted(gs)),
            pp ==> 0 <= k <= gs.len(),
            pp ==> acc@ == gs.subrange(0, k),
            pp ==> j == i + 1 + escape(gs.subrange(0, k)).len(),
        decreases v@.len() - j,
    {
        proof {
            if pp {
                lemma_quoted_frame(v@, i as int, gs);
                lemma_escape_take(gs, k);
                if k < gs.len() {
                    lemma_quoted_unit(v@, i as int, gs, k);
                }
            }
        }
        let ghost pre = acc@;
        let c = v[j];
        if c == '"' {
            proof {
                if pp {
                    if k < gs.len() {
                        assert(v@[j as int] == escape_char(gs[k])[0]);
                        assert(escape_char(gs[k])[0] != '"');
                        assert(false);
                    }
                    assert(gs.subrange(0, k) =~= gs);
                }
            }
            return Some((string_of_chars(&acc), j + 1));
        } else if c == '\\' {
            proof {
                if pp {
                    if k == gs.len() {
                        assert(v@[j as int] == '"');
                        assert(false);
                    }
                    assert(v@[j as int] == escape_char(gs[k])[0]);
                }
            }
            if v.len() - j <= 1 {
                proof {
                    if pp {
                        assert(false);
                    }
                }
                return None;
            }
            let d = v[j + 1];
            proof {
                if pp {
                    assert(escape_char(gs[k]).len() >= 2);
                    assert(v@[j as int + 1] == escape_char(gs[k])[1]);
                }
            }
            if d == '"' {
                acc.push('"');
                j = j + 2;
                proof {
                    if pp {
                        assert(gs[k] == '"');
                        lemma_escape_snoc(gs.subrange(0, k + 1));
                        assert(gs.subrange(0, k + 1).drop_last() =~= gs.subrange(0, k));
                        assert(acc@ =~= gs.subrange(0, k + 1));
                        k = k + 1;
                    }
                }
            } else if d == '\\' {
                acc.push('\\');
                j = j + 2;
                proof {
                    if pp {
                        assert(gs[k] == '\\');
                        lemma_escape_snoc(gs.subrange(0, k + 1));
                        assert(gs.subrange(0, k + 1).drop_last() =~= gs.subrange(0, k));
                        assert(acc@ =~= gs.subrange(0, k + 1));
                        k = k + 1;
                    }
                }
            } else if d == 'u' {
                proof {
                    if pp {
                        assert(gs[k] != '"' && gs[k] != '\\');
                        assert((gs[k] as u32) < 32);
                        assert(escape_char(gs[k]).len() == 6);
                    }
                }
                if v.len() - j <= 5 {
                    proof {
                        if pp {
                            assert(false);
                        }
                    }
                    return None;
                }
                if v[j + 2] != '0' || v[j + 3] != '0' {
                    proof {
                        if pp {
                            assert(v@[j as int + 2] == escape_char(gs[k])[2]);
                            assert(v@[j as int + 3] == escape_char(gs[k])[3]);
                            assert(false);
                        }
                    }
                    return None;
                }
                proof {
                    if pp {
                        assert(v@[j as int + 4] == escape_char(gs[k])[4]);
                        assert(v@[j as int + 5] == escape_char(gs[k])[5]);
                        assert(v@[j as int + 4] == hex_digit((gs[k] as u32) as int / 16));
                        assert(v@[j as int + 5] == hex_digit((gs[k] as u32) as int % 16));
                    }
                }
                let h1 = match hex_val(v[j + 4]) {
                    Some(n) => n,
                    None => {
                        proof {
                            if pp {
                                assert(false);
                            }
                        }
                        return None;
                    },
                };
                let h2 = match hex_val(v[j + 5]) {
                    Some(n) => n,
                    None => {
                        proof {
                            if pp {
                                assert(false);
                            }
                        }
                        return None;
                    },
                };
                let code = h1 * 16 + h2;
                if code >= 32 {
                    proof {
                        if pp {
                            assert(h1 == (gs[k] as u32) as int / 16);
                            assert(h2 == (gs[k] as u32) as int % 16);
                            assert(false);
                        }
                    }
                    return None;
                }
                acc.push(code as char);
                j = j + 6;
                proof {
                    if pp {
                        assert(h1 == (gs[k] as u32) as int / 16);
                        assert(h2 == (gs[k] as u32) as int % 16);
                        assert(code == gs[k] as u32);
                        assert((code as char) as u32 == gs[k] as u32);
                        vstd::utf8::char_u32_cast(code as char, (code as char) as u32);
                        vstd::utf8::char_u32_cast(gs[k], (code as char) as u32);
                        assert(code as char == gs[k]);
                        lemma_escape_snoc(gs.subrange(0, k + 1));
                        assert(gs.subrange(0, k + 1).drop_last() =~= gs.subrange(0, k));
                        assert(acc@ =~= gs.subrange(0, k + 1));
                        k = k + 1;
                    }
                }
            } else {
                proof {
                    if pp {
                        assert(escape_char(gs[k])[1] == '"' || escape_char(gs[k])[1] == '\\'
                            || escape_char(gs[k])[1] == 'u');
                        assert(false);
                    }
                }
                return None;
            }
        } else if (c as u32) < 32 {
            proof {
                if pp {
                    if k == gs.len() {
                        assert(v@[j as int] == '"');
                        assert(false);
                    }
                    assert(v@[j as int] == escape_char(gs[k])[0]);
                    assert(false);
                }
            }
            return None;
        } else {
            acc.push(c);
            j = j + 1;
            proof {
                if pp {
                    if k == gs.len() {
                        assert(v@[j as int - 1] == '"');
                        assert(false);
                    }
                    assert(v@[j as int - 1] == escape_char(gs[k])[0]);
                    assert(gs[k] == c);
                    lemma_escape_snoc(gs.subrange(0, k + 1));
                    assert(gs.subrange(0, k + 1).drop_last() =~= gs.subrange(0, k));
                    assert(acc@ =~= gs.subrange(0, k + 1));
                    k = k + 1;
                }
            }
        }
    }
    proof {
        if pp {
            lemma_quoted_frame(v@, i as int, gs);
            lemma_escape_take(gs, k);
            assert(false);
        }
    }
    None
}

/// Reads one member of the `urls` object: a path bound to its entry
/// object.  Where `entry_json(expected.0)` followed by `expected.1` stands
/// at `i`, exactly that entry is read.
#[verifier::rlimit(100)]
fn parse_entry(v: &Vec<char>, i: usize, expected: Ghost<(EntryV, Seq<char>)>) -> (r: Option<
    (FileEntry, usize),
>)
    ensures
        r matches Some(p) ==> i < p.1 <= v@.len(),
        (i <= v@.len() && v@.subrange(i as int, v@.len() as int) == entry_json(expected@.0)
            + expected@.1) ==> (r matches Some(p) && p.0@ == expected@.0 && p.1 == i + entry_json(
            expected@.0,
        ).len()),
{
    let ghost e = expected@.0;
    let ghost erest = expected@.1;
    let ghost qq = i <= v@.len() && v@.subrange(i as int, v@.len() as int) == entry_json(e)
        + erest;
    let ghost tailm = ",\"mtime\":"@ + (quoted(e.mtime) + (seq!['}'] + erest));
    proof {
        if qq {
            reveal_strlit("],\"mtime\":");
            reveal_strlit(",\"mtime\":");
            reveal_strlit("}");
            assert("],\"mtime\":"@ =~= seq![']'] + ",\"mtime\":"@);
            assert(entry_json(e) + erest =~= quoted(e.path) + (":{\"patterns\":["@
                + (patterns_json(e.patterns) + (seq![']'] + tailm))));
            lemma_split_at(
                v@,
                i as int,
                quoted(e.path),
                ":{\"patterns\":["@ + (patterns_json(e.patterns) + (seq![']'] + tailm)),
            );
        }
    }
    let (path, i2) = match parse_string(v, i, Ghost(e.path)) {
        Some(p) => p,
        None => {
            proof {
                if qq {
                    assert(false);
                }
            }
            return None;
        },
    };
    proof {
        if qq {
            lemma_split_at(
                v@,
                i2 as int,
                ":{\"patterns\":["@,
                patterns_json(e.patterns) + (seq![']'] + tailm),
            );
        }
    }
    let i3 = match expect_lit(v, i2, ":{\"patterns\":[") {
        Some(j) => j,
        None => {
            proof {
                if qq {
                    assert(false);
                }
            }
            return None;
        },
    };
    let mut patterns: Vec<String> = Vec::new();
    let mut i4 = i3;
    proof {
        if qq {
            if e.patterns.len() == 0 {
                assert(patterns_json(e.patterns) + (seq![']'] + tailm) =~= seq![']'] + tailm);
                lemma_first_char(v@, i3 as int, seq![']'], tailm);
                lemma_split_at(v@, i3 as int, seq![']'], tailm);
            } else {
                lemma_patterns_json_cons(e.patterns);
                if e.patterns.len() == 1 {
                    assert(patterns_json(e.patterns) + (seq![']'] + tailm) =~= quoted(
                        e.patterns[0],
                    ) + (seq![']'] + tailm));
                    lemma_first_char(v@, i3 as int, quoted(e.patterns[0]), seq![']'] + tailm);
                } else {
                    assert(patterns_json(e.patterns) + (seq![']'] + tailm) =~= quoted(
                        e.patterns[0],
                    ) + (seq![','] + (patterns_json(e.patterns.drop_first()) + (seq![']']
                        + tailm))));
                    lemma_first_char(
                        v@,
                        i3 as int,
                        quoted(e.patterns[0]),
                        seq![','] + (patterns_json(e.patterns.drop_first()) + (seq![']'] + tailm)),
                    );
                }
                assert(v@[i3 as int] == '"');
            }
        }
    }
    if i4 < v.len() && v[i4] == ']' {
        i4 = i4 + 1;
    } else {
        let ghost mut u: int = 0;
        proof {
            if qq {
                assert(e.patterns.len() > 0);
                assert(e.patterns.subrange(0, e.patterns.len() as int) =~= e.patterns);
                assert(e.patterns.subrange(0, 0) =~= Seq::<Seq<char>>::empty());
                assert(patterns.deep_view() =~= e.patterns.subrange(0, 0));
            }
        }
        loop
            invariant_except_break
                qq ==> 0 <= u < e.patterns.len(),
                qq ==> patterns.deep_view() == e.patterns.subrange(0, u),
                qq ==> v@.subrange(i4 as int, v@.len() as int) == patterns_json(
                    e.patterns.subrange(u, e.patterns.len() as int),
                ) + (seq![']'] + tailm),
            invariant
                i < i4 <= v@.len(),
                v@.len() <= usize::MAX,
                e == expected@.0,
                erest == expected@.1,
                qq == (i <= v@.len() && v@.subrange(i as int, v@.len() as int) == entry_json(e)
                    + erest),
                tailm == ",\"mtime\":"@ + (quoted(e.mtime) + (seq!['}'] + erest)),
            ensures
                i < i4 <= v@.len(),
                qq ==> patterns.deep_view() == e.patterns,
                qq ==> v@.subrange(i4 as int, v@.len() as int) == tailm,
            decreases v@.len() - i4,
        {
            let ghost m = e.patterns.len() as int;
            proof {
                if qq {
                    let rem = e.patterns.subrange(u, m);
                    lemma_patterns_json_cons(rem);
                    assert(rem[0] == e.patterns[u]);
                    if rem.len() == 1 {
                        assert(patterns_json(rem) + (seq![']'] + tailm) =~= quoted(e.patterns[u])
                            + (seq![']'] + tailm));
                        lemma_split_at(v@, i4 as int, quoted(e.patterns[u]), seq![']'] + tailm);
                        lemma_first_char(
                            v@,
                            i4 as int + quoted(e.patterns[u]).len() as int,
                            seq![']'],
                            tailm,
                        );
                        lemma_split_at(
                            v@,
                            i4 as int + quoted(e.patterns[u]).len() as int,
                            seq![']'],
                            tailm,
                        );
                    } else {
                        assert(rem.drop_first() =~= e.patterns.subrange(u + 1, m));
                        assert(patterns_json(rem) + (seq![']'] + tailm) =~= quoted(e.patterns[u])
                            + (seq![','] + (patterns_json(e.patterns.subrange(u + 1, m))
                            + (seq![']'] + tailm))));
                        lemma_split_at(
                            v@,
                            i4 as int,
                            quoted(e.patterns[u]),
                            seq![','] + (patterns_json(e.patterns.subrange(u + 1, m)) + (seq![']']
                                + tailm)),
                        );
                        lemma_first_char(
                            v@,
                            i4 as int + quoted(e.patterns[u]).len() as int,
                            seq![','],
                            patterns_json(e.patterns.subrange(u + 1, m)) + (seq![']'] + tailm),
                        );
                        lemma_split_at(
                            v@,
                            i4 as int + quoted(e.patterns[u]).len() as int,
                            seq![','],
                            patterns_json(e.patterns.subrange(u + 1, m)) + (seq![']'] + tailm),
                        );
                    }
                }
            }
            let (p, inext) = match parse_string(v, i4, Ghost(e.patterns[u])) {
                Some(p) => p,
                None => {
                    proof {
                        if qq {
                            assert(false);
                        }
                    }
                    return None;
                },
            };
            let ghost pre = patterns.deep_view();
            patterns.push(p);
            proof {
                if qq {
                    assert(patterns.deep_view() =~= pre.push(p@));
                    assert(pre.push(p@) =~= e.patterns.subrange(0, u + 1));
                }
            }
            if inext < v.len() && v[inext] == ',' {
                proof {
                    if qq {
                        u = u + 1;
                    }
                }
                i4 = inext + 1;
            } else if inext < v.len() && v[inext] == ']' {
                proof {
                    if qq {
                        u = u + 1;
                        assert(u == e.patterns.len());
                        assert(e.patterns.subrange(0, u) =~= e.patterns);
                    }
                }
                i4 = inext + 1;
                break ;
            } else {
                proof {
                    if qq {
                        assert(false);
                    }
                }
                return None;
            }
        }
    }
    proof {
        if qq {
            lemma_split_at(
                v@,
                i4 as int,
                ",\"mtime\":"@,
                quoted(e.mtime) + (seq!['}'] + erest),
            );
        }
    }
    let i5 = match expect_lit(v, i4, ",\"mtime\":") {
        Some(j) => j,
        None => {
            proof {
                if qq {
                    assert(false);
                }
            }
            return None;
        },
    };
    proof {
        if qq {
            lemma_split_at(v@, i5 as int, quoted(e.mtime), seq!['}'] + erest);
        }
    }
    let (mtime, i6) = match parse_string(v, i5, Ghost(e.mtime)) {
        Some(p) => p,
        None => {
            proof {
                if qq {
                    assert(false);
                }
            }
            return None;
        },
    };
    proof {
        if qq {
            reveal_strlit("}");
            assert(seq!['}'] + erest =~= "}"@ + erest);
            lemma_split_at(v@, i6 as int, "}"@, erest);
        }
    }
    let i7 = match expect_lit(v, i6, "}") {
        Some(j) => j,
        None => {
            proof {
                if qq {
                    assert(false);
                }
            }
            return None;
        },
    };
    let fe = FileEntry { path, patterns, mtime };
    proof {
        if qq {
            assert(fe@ =~= e);
            assert(v@.subrange(i7 as int, v@.len() as int) == erest);
            assert(v@.len() - i7 == erest.len());
            assert(v@.len() - i == entry_json(e).len() + erest.len());
        }
    }
    Some((fe, i7))
}

/// Reads the document produced by `to_json`, without yet validating it.
/// Where the text is exactly `cache_json(expected)`, exactly that cache is
/// read back.
#[verifier::rlimit(100)]
fn parse_cache_chars(v: &Vec<char>, expected: Ghost<CacheV>) -> (r: Option<Cache>)
    ensures
        (v@ == cache_json(expected@)) ==> (r matches Some(c) && c@ == expected@),
{
    let ghost gc = expected@;
    let ghost qq = v@ == cache_json(gc);
    proof {
        if qq {
            lemma_doc_decomp(gc);
            assert(v@.subrange(0, v@.len() as int) =~= v@);
            lemma_split_at(v@, 0, "{\"urls\":{"@, urls_json(gc.urls) + (seq!['}'] + doc_tail2(
                gc,
            )));
        }
    }
    let mut i = match expect_lit(v, 0, "{\"urls\":{") {
        Some(j) => j,
        None => {
            proof {
                if qq {
                    assert(false);
                }
            }
            return None;
        },
    };
    let mut urls: Vec<FileEntry> = Vec::new();
    proof {
        if qq {
            if gc.urls.len() == 0 {
                assert(urls_json(gc.urls) + (seq!['}'] + doc_tail2(gc)) =~= seq!['}'] + doc_tail2(
                    gc,
                ));
                lemma_first_char(v@, i as int, seq!['}'], doc_tail2(gc));
                lemma_split_at(v@, i as int, seq!['}'], doc_tail2(gc));
            } else {
                lemma_urls_json_cons(gc.urls);
                if gc.urls.len() == 1 {
                    assert(urls_json(gc.urls) + (seq!['}'] + doc_tail2(gc)) =~= entry_json(
                        gc.urls[0],
                    ) + (seq!['}'] + doc_tail2(gc)));
                    lemma_first_char(v@, i as int, entry_json(gc.urls[0]), seq!['}'] + doc_tail2(
                        gc,
                    ));
                } else {
                    assert(urls_json(gc.urls) + (seq!['}'] + doc_tail2(gc)) =~= entry_json(
                        gc.urls[0],
                    ) + (seq![','] + (urls_json(gc.urls.drop_first()) + (seq!['}'] + doc_tail2(
                        gc,
                    )))));
                    lemma_first_char(
                        v@,
                        i as int,
                        entry_json(gc.urls[0]),
                        seq![','] + (urls_json(gc.urls.drop_first()) + (seq!['}'] + doc_tail2(
                            gc,
                        ))),
                    );
                }
                assert(entry_json(gc.urls[0])[0] == '"');
            }
        }
    }
    if i < v.len() && v[i] == '}' {
        i = i + 1;
    } else {
        let ghost mut t: int = 0;
        proof {
            if qq {
                assert(gc.urls.len() > 0);
                assert(gc.urls.subrange(0, gc.urls.len() as int) =~= gc.urls);
                assert(entries_view(urls@) =~= gc.urls.subrange(0, 0));
            }
        }
        loop
            invariant_except_break
                qq ==> 0 <= t < gc.urls.len(),
                qq ==> entries_view(urls@) == gc.urls.subrange(0, t),
                qq ==> v@.subrange(i as int, v@.len() as int) == urls_json(
                    gc.urls.subrange(t, gc.urls.len() as int),
                ) + (seq!['}'] + doc_tail2(gc)),
            invariant
                i <= v@.len(),
                v@.len() <= usize::MAX,
                gc == expected@,
                qq == (v@ == cache_json(gc)),
            ensures
                i <= v@.len(),
                qq ==> entries_view(urls@) == gc.urls,
                qq ==> v@.subrange(i as int, v@.len() as int) == doc_tail2(gc),
            decreases v@.len() - i,
        {
            let ghost n = gc.urls.len() as int;
            proof {
                if qq {
                    let rem = gc.urls.subrange(t, n);
                    lemma_urls_json_cons(rem);
                    assert(rem[0] == gc.urls[t]);
                    if rem.len() == 1 {
                        assert(urls_json(rem) + (seq!['}'] + doc_tail2(gc)) =~= entry_json(
                            gc.urls[t],
                        ) + (seq!['}'] + doc_tail2(gc)));
                    } else {
                        assert(rem.drop_first() =~= gc.urls.subrange(t + 1, n));
                        assert(urls_json(rem) + (seq!['}'] + doc_tail2(gc)) =~= entry_json(
                            gc.urls[t],
                        ) + (seq![','] + (urls_json(gc.urls.subrange(t + 1, n)) + (seq!['}']
                            + doc_tail2(gc)))));
                    }
                }
            }
            let ghost erest: Seq<char> = if gc.urls.subrange(t, gc.urls.len() as int).len() == 1 {
                seq!['}'] + doc_tail2(gc)
            } else {
                seq![','] + (urls_json(gc.urls.subrange(t + 1, gc.urls.len() as int)) + (seq!['}']
                    + doc_tail2(gc)))
            };
            let (fe, i7) = match parse_entry(v, i, Ghost((gc.urls[t], erest))) {
                Some(p) => p,
                None => {
                    proof {
                        if qq {
                            assert(false);
                        }
                    }
                    return None;
                },
            };
            let ghost pre = entries_view(urls@);
            urls.push(fe);
            proof {
                if qq {
                    assert(entries_view(urls@) =~= pre.push(fe@));
                    assert(pre.push(fe@) =~= gc.urls.subrange(0, t + 1));
                    lemma_split_at(v@, i as int, entry_json(gc.urls[t]), erest);
                    let rem = gc.urls.subrange(t, n);
                    if rem.len() == 1 {
                        lemma_first_char(v@, i7 as int, seq!['}'], doc_tail2(gc));
                        lemma_split_at(v@, i7 as int, seq!['}'], doc_tail2(gc));
                    } else {
                        lemma_first_char(
                            v@,
                            i7 as int,
                            seq![','],
                            urls_json(gc.urls.subrange(t + 1, n)) + (seq!['}'] + doc_tail2(gc)),
                        );
                        lemma_split_at(
                            v@,
                            i7 as int,
                            seq![','],
                            urls_json(gc.urls.subrange(t + 1, n)) + (seq!['}'] + doc_tail2(gc)),
                        );
                    }
                }
            }
            if i7 < v.len() && v[i7] == ',' {
                proof {
                    if qq {
                        t = t + 1;
                    }
                }
                i = i7 + 1;
            } else if i7 < v.len() && v[i7] == '}' {
                proof {
                    if qq {
                        t = t + 1;
                        assert(t == gc.urls.len());
                        assert(gc.urls.subrange(0, t) =~= gc.urls);
                    }
                }
                i = i7 + 1;
                break ;
            } else {
                proof {
                    if qq {
                        assert(false);
                    }
                }
                return None;
            }
        }
    }
    proof {
        if qq {
            lemma_split_at(
                v@,
                i as int,
                ",\"last_modified_at\":"@,
                quoted(gc.last_modified_at) + (",\"version\":"@ + (quoted(gc.version) + "}"@)),
            );
        }
    }
    let i8 = match expect_lit(v, i, ",\"last_modified_at\":") {
        Some(j) => j,
        None => {
            proof {
                if qq {
                    assert(false);
                }
            }
            return None;
        },
    };
    proof {
        if qq {
            lemma_split_at(v@, i8 as int, quoted(gc.last_modified_at), ",\"version\":"@
                + (quoted(gc.version) + "}"@));
        }
    }
    let (lm, i9) = match parse_string(v, i8, Ghost(gc.last_modified_at)) {
        Some(p) => p,
        None => {
            proof {
                if qq {
                    assert(false);
                }
            }
            return None;
        },
    };
    proof {
        if qq {
            lemma_split_at(v@, i9 as int, ",\"version\":"@, quoted(gc.version) + "}"@);
        }
    }
    let i10 = match expect_lit(v, i9, ",\"version\":") {
        Some(j) => j,
        None => {
            proof {
                if qq {
                    assert(false);
                }
            }
            return None;
        },
    };
    proof {
        if qq {
            lemma_split_at(v@, i10 as int, quoted(gc.version), "}"@);
        }
    }
    let (ver, i11) = match parse_string(v, i10, Ghost(gc.version)) {
        Some(p) => p,
        None => {
            proof {
                if qq {
                    assert(false);
                }
            }
            return None;
        },
    };
    proof {
        if qq {
            assert("}"@ + Seq::<char>::empty() =~= "}"@);
            lemma_split_at(v@, i11 as int, "}"@, Seq::<char>::empty());
        }
    }
    let i12 = match expect_lit(v, i11, "}") {
        Some(j) => j,
        None => {
            proof {
                if qq {
                    assert(false);
                }
            }
            return None;
        },
    };
    if i12 == v.len() {
        let c = Cache { urls, last_modified_at: lm, version: ver };
        proof {
            if qq {
                assert(c@ =~= gc);
            }
        }
        Some(c)
    } else {
        proof {
            if qq {
                assert(v@.subrange(i12 as int, v@.len() as int) == Seq::<char>::empty());
                assert(v@.len() - i12 == 0);
                assert(false);
            }
        }
        None
    }
}

/// Whether no two entries bind the same path.
fn paths_unique(urls: &Vec<FileEntry>) -> (r: bool)
    ensures
        r == unique_paths(entries_view(urls@)),
{
    let n = urls.len();
    let mut i: usize = 0;
    while i < n
        invariant
            i <= n,
            n == urls@.len(),
            forall|a: int, b: int|
                0 <= a < b < n && a < i ==> entries_view(urls@)[a].path != entries_view(
                    urls@,
                )[b].path,
        decreases n - i,
    {
        let mut j: usize = i + 1;
        while j < n
            invariant
                i < j <= n,
                n == urls@.len(),
                forall|b: int| i < b < j ==> entries_view(urls@)[i as int].path != entries_view(
                    urls@,
                )[b].path,
            decreases n - j,
        {
            proof {
                assert(entries_view(urls@)[i as int] == urls@[i as int]@);
                assert(entries_view(urls@)[j as int] == urls@[j as int]@);
            }
            if str_eq(urls[i].path.as_str(), urls[j].path.as_str()) {
                return false;
            }
            j = j + 1;
        }
        i = i + 1;
    }
    true
}

/// Reads a cache document.  A text is accepted if and only if it is
/// exactly the canonical serialization of a well-formed cache — then that
/// cache is returned, and it round-trips to the same bytes.  Anything else
/// is rejected, and the caller starts from an empty cache.
pub fn parse_cache(s: &str) -> (r: Option<Cache>)
    ensures
        r matches Some(c) ==> c.wf() && s@ == cache_json(c@),
        (exists|c: CacheV| unique_paths(c.urls) && s@ == #[trigger] cache_json(c)) ==> r
            is Some,
{
    let ghost has_witness = exists|c: CacheV|
        unique_paths(c.urls) && s@ == #[trigger] cache_json(c);
    let ghost witness: CacheV = if has_witness {
        choose|c: CacheV| unique_paths(c.urls) && s@ == #[trigger] cache_json(c)
    } else {
        arbitrary()
    };
    let v = chars_of(s);
    match parse_cache_chars(&v, Ghost(witness)) {
        Some(c) => {
            if !paths_unique(&c.urls) {
                proof {
                    if has_witness {
                        assert(false);
                    }
                }
                return None;
            }
            let out = c.to_json();
            if str_eq(out.as_str(), s) {
                Some(c)
            } else {
                proof {
                    if has_witness {
                        assert(false);
                    }
                }
                None
            }
        },
        None => {
            proof {
                if has_witness {
                    assert(false);
                }
            }
            None
        },
    }
}

} // verus!
