//! The language dataset and its tokenized search index.
//!
//! A [`Linguist`] holds language entries; [`Linguist::colors`] builds a
//! [`ColorMap`], an inverted index from lowercased token to the list of
//! (canonical name, color) pairs whose entry mentions that token in its
//! name, aliases or extensions.  [`ColorMap::query`] tokenizes a query the
//! same way and returns the matches, keyed and ordered by name.

use vstd::prelude::*;
use crate::error::Error;
use crate::hex::hex_color_val;
use crate::hex::hex_seq;
use crate::hex::parse_hex_color;
use crate::hex::hex_string;
use crate::hex::rgb24;
use crate::hex::valid_hex_color;
use crate::text::lex_lt;
use crate::text::lemma_lex_asymmetric;
use crate::text::lemma_lex_transitive;
use crate::text::lemma_lex_trichotomy;
use crate::text::lemma_lower_seq_idempotent;
use crate::text::lower_seq;
use crate::text::lower_str;
use crate::text::str_lt;
use crate::token::lemma_tokens_lower;
use crate::token::spec_tokens;
use crate::token::tokenize;

verus! {

/// The mathematical model of one language entry.
pub ghost struct EntryModel {
    pub name: Seq<char>,
    pub color: Option<Seq<char>>,
    pub aliases: Seq<Seq<char>>,
    pub extensions: Seq<Seq<char>>,
}

/// One language entry of the dataset: a canonical name, an optional
/// `#RRGGBB` color, and any number of aliases and file extensions.
pub struct LangEntry {
    pub name: String,
    pub color: Option<String>,
    pub aliases: Vec<String>,
    pub extensions: Vec<String>,
}

impl View for LangEntry {
    type V = EntryModel;

    open spec fn view(&self) -> EntryModel {
        EntryModel {
            name: self.name@,
            color: match self.color {
                Some(c) => Some(c@),
                None => None,
            },
            aliases: self.aliases.deep_view(),
            extensions: self.extensions.deep_view(),
        }
    }
}

impl DeepView for LangEntry {
    type V = EntryModel;

    open spec fn deep_view(&self) -> EntryModel {
        self.view()
    }
}

/// The dataset: a sequence of language entries, the mapping from canonical
/// names to their metadata.  Names are meant to be unique up to ASCII case.
pub struct Linguist {
    entries: Vec<LangEntry>,
}

impl View for Linguist {
    type V = Seq<EntryModel>;

    closed spec fn view(&self) -> Seq<EntryModel> {
        self.entries.deep_view()
    }
}

/// An entry contributes to the index only when it has a color, and only
/// when that color parses; this is the parsed 24-bit value.
pub open spec fn entry_color_ok(e: EntryModel) -> bool {
    e.color is Some ==> valid_hex_color(e.color->0)
}

/// The whole dataset parses: every present color string is well formed.
pub open spec fn all_colors_ok(entries: Seq<EntryModel>) -> bool {
    forall|i: int| 0 <= i < entries.len() ==> entry_color_ok(#[trigger] entries[i])
}

/// The texts of an entry that are tokenized for indexing, in order:
/// the canonical name, then the aliases, then the extensions.
pub open spec fn texts_of(e: EntryModel) -> Seq<Seq<char>> {
    seq![e.name] + e.aliases + e.extensions
}

/// All tokens of a sequence of texts, concatenated in text order.
pub open spec fn tokens_of_texts(ts: Seq<Seq<char>>) -> Seq<Seq<char>>
    decreases ts.len(),
{
    if ts.len() == 0 {
        seq![]
    } else {
        spec_tokens(ts[0]) + tokens_of_texts(ts.drop_first())
    }
}

/// All tokens an entry is indexed under (before lowercasing).
pub open spec fn entry_tokens(e: EntryModel) -> Seq<Seq<char>> {
    tokens_of_texts(texts_of(e))
}

/// The bucket of a token in the index: empty when the token is unknown.
pub open spec fn bucket_of(
    m: Map<Seq<char>, Seq<(Seq<char>, u32)>>,
    t: Seq<char>,
) -> Seq<(Seq<char>, u32)> {
    if m.contains_key(t) {
        m[t]
    } else {
        seq![]
    }
}

/// Append one (name, color) pair to the bucket of the lowercased token.
pub open spec fn add_token(
    m: Map<Seq<char>, Seq<(Seq<char>, u32)>>,
    t: Seq<char>,
    name: Seq<char>,
    color: u32,
) -> Map<Seq<char>, Seq<(Seq<char>, u32)>> {
    m.insert(lower_seq(t), bucket_of(m, lower_seq(t)).push((name, color)))
}

/// Append one entry's pair to the buckets of all its tokens, in order.
pub open spec fn add_tokens(
    m: Map<Seq<char>, Seq<(Seq<char>, u32)>>,
    toks: Seq<Seq<char>>,
    name: Seq<char>,
    color: u32,
) -> Map<Seq<char>, Seq<(Seq<char>, u32)>>
    decreases toks.len(),
{
    if toks.len() == 0 {
        m
    } else {
        add_tokens(add_token(m, toks[0], name, color), toks.drop_first(), name, color)
    }
}

/// The search index of a dataset: entries contribute in order; an entry
/// without a color contributes nothing; an entry with a color is filed
/// under each of its lowercased tokens as (lowercased name, color value).
pub open spec fn index_of(entries: Seq<EntryModel>) -> Map<Seq<char>, Seq<(Seq<char>, u32)>>
    decreases entries.len(),
{
    if entries.len() == 0 {
        Map::empty()
    } else {
        let m = index_of(entries.drop_last());
        let e = entries.last();
        if e.color is Some {
            add_tokens(m, entry_tokens(e), lower_seq(e.name), hex_color_val(e.color->0) as u32)
        } else {
            m
        }
    }
}

impl Linguist {
    /// Wrap a dataset handed over as plain entries.  Callers obtain the
    /// entries from wherever the dataset lives; the library only indexes.
    pub fn from_entries(entries: Vec<LangEntry>) -> (r: Linguist)
        ensures
            r@ == entries.deep_view(),
    {
        Linguist { entries }
    }

    /// Build the search index for the colors.
    ///
    /// Fails, producing no partial index, exactly when some entry's color
    /// string is malformed; otherwise the index is `index_of` the dataset.
    pub fn colors(&self) -> (r: Result<ColorMap, Error>)
        ensures
            r is Ok <==> all_colors_ok(self@),
            r matches Ok(cm) ==> cm@ == index_of(self@) && cm.wf(),
            r matches Err(e) ==> e == Error::DatasetParse,
    {
        let mut cm = ColorMap { buckets: Vec::new() };
        proof {
            assert(self@.take(0) =~= Seq::<EntryModel>::empty());
            assert(cm@ =~= index_of(self@.take(0)));
        }
        let n = self.entries.len();
        let mut idx: usize = 0;
        while idx < n
            invariant
                n == self@.len(),
                n == self.entries@.len(),
                self@ == self.entries.deep_view(),
                0 <= idx <= n,
                cm.wf(),
                cm@ == index_of(self@.take(idx as int)),
                all_colors_ok(self@.take(idx as int)),
            decreases n - idx,
        {
            let e = &self.entries[idx];
            proof {
                assert(self.entries.deep_view()[idx as int] == self.entries@[idx as int]@);
                assert(e@ == self@[idx as int]);
            }
            match &e.color {
                None => {
                    proof {
                        lemma_take_step(self@, idx as int);
                        assert(index_of(self@.take(idx + 1)) == cm@);
                    }
                },
                Some(c) => {
                    match parse_hex_color(c.as_str()) {
                        None => {
                            proof {
                                assert(!entry_color_ok(self@[idx as int]));
                                assert(!all_colors_ok(self@));
                            }
                            return Err(Error::DatasetParse);
                        },
                        Some(v) => {
                            cm.add_entry_tokens(e, v);
                            proof {
                                lemma_take_step(self@, idx as int);
                                assert(index_of(self@.take(idx + 1)) == cm@);
                            }
                        },
                    }
                },
            }
            idx = idx + 1;
            proof {
                assert(all_colors_ok(self@.take(idx as int)));
            }
        }
        proof {
            assert(self@.take(n as int) =~= self@);
        }
        Ok(cm)
    }
}

/// `index_of` over one more entry: the last entry is filed on top of the
/// index of the others.
proof fn lemma_take_step(entries: Seq<EntryModel>, i: int)
    requires
        0 <= i < entries.len(),
    ensures
        index_of(entries.take(i + 1)) == if entries[i].color is Some {
            add_tokens(
                index_of(entries.take(i)),
                entry_tokens(entries[i]),
                lower_seq(entries[i].name),
                hex_color_val(entries[i].color->0) as u32,
            )
        } else {
            index_of(entries.take(i))
        },
{
    assert(entries.take(i + 1).drop_last() =~= entries.take(i));
    assert(entries.take(i + 1).last() == entries[i]);
}

/// The tokenized inverted index: a mapping from lowercased token to the
/// ordered list of (lowercased canonical name, color value) pairs filed
/// under that token.  Built once by [`Linguist::colors`], then queried.
pub struct ColorMap {
    buckets: Vec<(String, Vec<(String, u32)>)>,
}

/// The model of one bucket: the (name, color) pairs in insertion order.
pub open spec fn bucket_view(b: Seq<(String, u32)>) -> Seq<(Seq<char>, u32)> {
    b.map_values(|p: (String, u32)| (p.0@, p.1))
}

/// The mapping represented by a list of keyed buckets.
pub open spec fn buckets_map(
    bs: Seq<(String, Vec<(String, u32)>)>,
) -> Map<Seq<char>, Seq<(Seq<char>, u32)>>
    decreases bs.len(),
{
    if bs.len() == 0 {
        Map::empty()
    } else {
        buckets_map(bs.drop_last()).insert(bs.last().0@, bucket_view(bs.last().1@))
    }
}

/// A key is in the mapping exactly when some bucket carries it.
proof fn lemma_buckets_map_keys(bs: Seq<(String, Vec<(String, u32)>)>, t: Seq<char>)
    ensures
        buckets_map(bs).contains_key(t) <==> exists|i: int|
            0 <= i < bs.len() && #[trigger] bs[i].0@ == t,
    decreases bs.len(),
{
    if bs.len() > 0 {
        lemma_buckets_map_keys(bs.drop_last(), t);
        if buckets_map(bs).contains_key(t) {
            if bs.last().0@ == t {
                assert(bs[bs.len() - 1].0@ == t);
            } else {
                let i = choose|i: int| 0 <= i < bs.drop_last().len() && #[trigger] bs.drop_last()[i].0@ == t;
                assert(bs[i].0@ == t);
            }
        }
        if exists|i: int| 0 <= i < bs.len() && #[trigger] bs[i].0@ == t {
            let i = choose|i: int| 0 <= i < bs.len() && #[trigger] bs[i].0@ == t;
            if i < bs.len() - 1 {
                assert(bs.drop_last()[i].0@ == t);
            }
        }
    }
}

/// With distinct keys, the bucket at an index is the mapping's value.
proof fn lemma_buckets_map_at(bs: Seq<(String, Vec<(String, u32)>)>, i: int)
    requires
        distinct_keys(bs),
        0 <= i < bs.len(),
    ensures
        buckets_map(bs).contains_key(bs[i].0@),
        buckets_map(bs)[bs[i].0@] == bucket_view(bs[i].1@),
    decreases bs.len(),
{
    if i == bs.len() - 1 {
    } else {
        assert forall|x: int, y: int|
            0 <= x < y < bs.drop_last().len() implies #[trigger] bs.drop_last()[x].0@
            != #[trigger] bs.drop_last()[y].0@ by {
            assert(bs.drop_last()[x] == bs[x]);
            assert(bs.drop_last()[y] == bs[y]);
        }
        lemma_buckets_map_at(bs.drop_last(), i);
        assert(bs.drop_last()[i] == bs[i]);
        assert(bs[i].0@ != bs.last().0@);
    }
}

/// Pairwise distinct bucket keys.
pub open spec fn distinct_keys(bs: Seq<(String, Vec<(String, u32)>)>) -> bool {
    forall|i: int, j: int| 0 <= i < j < bs.len() ==> #[trigger] bs[i].0@ != #[trigger] bs[j].0@
}

impl View for ColorMap {
    type V = Map<Seq<char>, Seq<(Seq<char>, u32)>>;

    closed spec fn view(&self) -> Map<Seq<char>, Seq<(Seq<char>, u32)>> {
        buckets_map(self.buckets@)
    }
}

impl ColorMap {
    /// The representation keeps one bucket per token.
    pub closed spec fn wf(&self) -> bool {
        distinct_keys(self.buckets@)
    }

    /// Find the bucket of a token, if the token is known.
    fn find_bucket(&self, key: &String) -> (r: Option<&Vec<(String, u32)>>)
        requires
            self.wf(),
        ensures
            r matches Some(b) ==> self@.contains_key(key@) && bucket_view(b@) == self@[key@],
            r is None ==> !self@.contains_key(key@),
    {
        let n = self.buckets.len();
        let mut i: usize = 0;
        while i < n
            invariant
                self.wf(),
                n == self.buckets@.len(),
                0 <= i <= n,
                forall|j: int| 0 <= j < i ==> #[trigger] self.buckets@[j].0@ != key@,
            decreases n - i,
        {
            if self.buckets[i].0 == *key {
                proof {
                    lemma_buckets_map_at(self.buckets@, i as int);
                }
                return Some(&self.buckets[i].1);
            }
            i = i + 1;
        }
        proof {
            lemma_buckets_map_keys(self.buckets@, key@);
        }
        None
    }

    /// File one (name, color) pair under one raw token: the bucket of the
    /// lowercased token gains the pair at its end.
    fn push_pair(&mut self, tok: &String, name: &String, color: u32)
        requires
            old(self).wf(),
        ensures
            final(self).wf(),
            final(self)@ == add_token(old(self)@, tok@, name@, color),
    {
        let key = lower_str(tok.as_str());
        let n = self.buckets.len();
        let mut i: usize = 0;
        while i < n
            invariant
                self.wf(),
                self.buckets@ == old(self).buckets@,
                n == self.buckets@.len(),
                0 <= i <= n,
                key@ == lower_seq(tok@),
                forall|j: int| 0 <= j < i ==> #[trigger] self.buckets@[j].0@ != key@,
            decreases n - i,
        {
            if self.buckets[i].0 == key {
                proof {
                    lemma_buckets_map_at(self.buckets@, i as int);
                }
                let ghost old_bs = self.buckets@;
                let pair = (name.clone(), color);
                let ghost pv = pair;
                proof {
                    assert(pv.0@ == name@);
                }
                self.buckets[i].1.push(pair);
                proof {
                    assert(self.buckets@ =~= old_bs.update(i as int, self.buckets@[i as int]));
                    assert(self.buckets@[i as int].0 == old_bs[i as int].0);
                    assert(self.buckets@[i as int].1@ =~= old_bs[i as int].1@.push(pv));
                    lemma_buckets_map_update(old_bs, i as int, self.buckets@[i as int].1);
                    assert(old_bs.update(i as int, self.buckets@[i as int]) == old_bs.update(
                        i as int,
                        (old_bs[i as int].0, self.buckets@[i as int].1),
                    ));
                    assert(bucket_view(self.buckets@[i as int].1@) =~= bucket_view(
                        old_bs[i as int].1@,
                    ).push((name@, color)));
                    assert(self@ =~= add_token(buckets_map(old_bs), tok@, name@, color));
                    assert(distinct_keys(self.buckets@)) by {
                        assert forall|x: int, y: int|
                            0 <= x < y < self.buckets@.len() implies #[trigger] self.buckets@[x].0@
                            != #[trigger] self.buckets@[y].0@ by {
                            if x != i {
                                assert(self.buckets@[x] == old_bs[x]);
                            }
                            if y != i {
                                assert(self.buckets@[y] == old_bs[y]);
                            }
                        }
                    }
                }
                return ;
            }
            i = i + 1;
        }
        proof {
            lemma_buckets_map_keys(self.buckets@, key@);
            assert(!self@.contains_key(key@));
        }
        let ghost old_bs = self.buckets@;
        let mut fresh: Vec<(String, u32)> = Vec::new();
        fresh.push((name.clone(), color));
        self.buckets.push((key, fresh));
        proof {
            assert(self.buckets@.drop_last() =~= old_bs);
            assert(bucket_view(self.buckets@.last().1@) =~= bucket_of(
                buckets_map(old_bs),
                lower_seq(tok@),
            ).push((name@, color)));
            assert(self@ =~= add_token(buckets_map(old_bs), tok@, name@, color));
            assert forall|x: int, y: int|
                0 <= x < y < self.buckets@.len() implies #[trigger] self.buckets@[x].0@
                != #[trigger] self.buckets@[y].0@ by {
                if y < self.buckets@.len() - 1 {
                    assert(old_bs[x].0@ != old_bs[y].0@);
                }
            }
        }
    }

    /// File an entry's pairs under every token of one text.
    fn push_text(&mut self, text: &String, name: &String, color: u32)
        requires
            old(self).wf(),
        ensures
            final(self).wf(),
            final(self)@ == add_tokens(old(self)@, spec_tokens(text@), name@, color),
    {
        let toks = tokenize(text.as_str());
        let ghost all = spec_tokens(text@);
        let n = toks.len();
        let mut k: usize = 0;
        proof {
            assert(all.skip(0) =~= all);
        }
        while k < n
            invariant
                self.wf(),
                n == toks@.len(),
                toks.deep_view() == all,
                0 <= k <= n,
                add_tokens(old(self)@, all, name@, color) == add_tokens(
                    self@,
                    all.skip(k as int),
                    name@,
                    color,
                ),
            decreases n - k,
        {
            proof {
                assert(all.skip(k as int)[0] == toks.deep_view()[k as int]);
                assert(all.skip(k as int).drop_first() =~= all.skip(k + 1));
            }
            self.push_pair(&toks[k], name, color);
            k = k + 1;
        }
        proof {
            assert(all.skip(n as int) =~= Seq::<Seq<char>>::empty());
        }
    }
    /// File an entry under every token of its name, aliases and
    /// extensions, as (lowercased name, color).
    fn add_entry_tokens(&mut self, e: &LangEntry, color: u32)
        requires
            old(self).wf(),
        ensures
            final(self).wf(),
            final(self)@ == add_tokens(old(self)@, entry_tokens(e@), lower_seq(e@.name), color),
    {
        let ghost texts = texts_of(e@);
        let ghost nm = lower_seq(e@.name);
        let ghost m0 = self@;
        let lname = lower_str(e.name.as_str());
        proof {
            lemma_tokens_of_texts_step(texts, 0);
            assert(texts[0] == e@.name);
            assert(texts.skip(0) =~= texts);
        }
        self.push_text(&e.name, &lname, color);
        proof {
            lemma_add_tokens_concat(m0, spec_tokens(e@.name), tokens_of_texts(texts.skip(1)), nm, color);
            assert(tokens_of_texts(texts.skip(0)) == spec_tokens(texts[0]) + tokens_of_texts(
                texts.skip(1),
            ));
            assert(add_tokens(m0, entry_tokens(e@), nm, color) == add_tokens(
                self@,
                tokens_of_texts(texts.skip(1)),
                nm,
                color,
            ));
        }
        let an = e.aliases.len();
        let mut ai: usize = 0;
        while ai < an
            invariant
                self.wf(),
                an == e.aliases@.len(),
                0 <= ai <= an,
                nm == lower_seq(e@.name),
                lname@ == nm,
                texts == texts_of(e@),
                texts.len() == 1 + e@.aliases.len() + e@.extensions.len(),
                e@.aliases.len() == e.aliases@.len(),
                add_tokens(m0, entry_tokens(e@), nm, color) == add_tokens(
                    self@,
                    tokens_of_texts(texts.skip(1 + ai)),
                    nm,
                    color,
                ),
            decreases an - ai,
        {
            let ghost mcur = self@;
            proof {
                lemma_tokens_of_texts_step(texts, 1 + ai);
                assert(texts[1 + ai] == e@.aliases[ai as int]);
                assert(e@.aliases[ai as int] == e.aliases@[ai as int]@);
            }
            self.push_text(&e.aliases[ai], &lname, color);
            proof {
                lemma_add_tokens_concat(
                    mcur,
                    spec_tokens(texts[1 + ai]),
                    tokens_of_texts(texts.skip(2 + ai)),
                    nm,
                    color,
                );
            }
            ai = ai + 1;
        }
        let xn = e.extensions.len();
        let mut xi: usize = 0;
        while xi < xn
            invariant
                self.wf(),
                xn == e.extensions@.len(),
                0 <= xi <= xn,
                nm == lower_seq(e@.name),
                lname@ == nm,
                texts == texts_of(e@),
                texts.len() == 1 + e@.aliases.len() + e@.extensions.len(),
                e@.aliases.len() == e.aliases@.len(),
                e@.extensions.len() == e.extensions@.len(),
                add_tokens(m0, entry_tokens(e@), nm, color) == add_tokens(
                    self@,
                    tokens_of_texts(texts.skip(1 + e.aliases@.len() + xi)),
                    nm,
                    color,
                ),
            decreases xn - xi,
        {
            let ghost mcur = self@;
            let ghost t = 1 + e@.aliases.len() + xi;
            proof {
                lemma_tokens_of_texts_step(texts, t as int);
                assert(texts[t as int] == e@.extensions[xi as int]);
                assert(e@.extensions[xi as int] == e.extensions@[xi as int]@);
            }
            self.push_text(&e.extensions[xi], &lname, color);
            proof {
                lemma_add_tokens_concat(
                    mcur,
                    spec_tokens(texts[t as int]),
                    tokens_of_texts(texts.skip(t as int + 1)),
                    nm,
                    color,
                );
            }
            xi = xi + 1;
        }
        proof {
            assert(texts.skip(texts.len() as int).len() == 0);
            assert(add_tokens(m0, entry_tokens(e@), nm, color) == self@);
        }
    }
}

/// The tokens of a list of texts, split at one text: the tokens of that
/// text come first, then the tokens of the texts after it.
proof fn lemma_tokens_of_texts_step(ts: Seq<Seq<char>>, t: int)
    requires
        0 <= t < ts.len(),
    ensures
        tokens_of_texts(ts.skip(t)) == spec_tokens(ts[t]) + tokens_of_texts(ts.skip(t + 1)),
{
    assert(ts.skip(t)[0] == ts[t]);
    assert(ts.skip(t).drop_first() =~= ts.skip(t + 1));
}

/// Filing a concatenation of token lists is filing one after the other.
proof fn lemma_add_tokens_concat(
    m: Map<Seq<char>, Seq<(Seq<char>, u32)>>,
    a: Seq<Seq<char>>,
    b: Seq<Seq<char>>,
    name: Seq<char>,
    color: u32,
)
    ensures
        add_tokens(m, a + b, name, color) == add_tokens(add_tokens(m, a, name, color), b, name, color),
    decreases a.len(),
{
    if a.len() == 0 {
        assert(a + b =~= b);
    } else {
        assert((a + b)[0] == a[0]);
        assert((a + b).drop_first() =~= a.drop_first() + b);
        lemma_add_tokens_concat(add_token(m, a[0], name, color), a.drop_first(), b, name, color);
    }
}

/// A color carried in query results, a 24-bit RGB value.
#[derive(Clone, Copy, Debug, PartialEq, Eq, Structural)]
pub struct TermColor {
    rgb: u32,
}

impl View for TermColor {
    type V = u32;

    closed spec fn view(&self) -> u32 {
        self.rgb
    }
}

impl TermColor {
    /// Wrap a 24-bit RGB value.
    pub fn from_rgb(v: u32) -> (r: TermColor)
        requires
            rgb24(v as int),
        ensures
            r@ == v,
    {
        TermColor { rgb: v }
    }

    /// The RGB value.
    pub fn rgb(&self) -> (r: u32)
        ensures
            r == self@,
    {
        self.rgb
    }

    /// The lowercase `#rrggbb` rendering of the color.
    pub fn hex(&self) -> (r: String)
        requires
            rgb24(self@ as int),
        ensures
            r@ == hex_seq(self@ as int),
    {
        hex_string(self.rgb)
    }
}

/// The (name, color) pairs found for a sequence of query tokens: the
/// bucket of each lowercased token in order, missing tokens contributing
/// nothing.
pub open spec fn gathered(
    m: Map<Seq<char>, Seq<(Seq<char>, u32)>>,
    toks: Seq<Seq<char>>,
) -> Seq<(Seq<char>, u32)>
    decreases toks.len(),
{
    if toks.len() == 0 {
        seq![]
    } else {
        gathered(m, toks.drop_last()) + bucket_of(m, lower_seq(toks.last()))
    }
}

/// Deduplicate gathered pairs by name, later pairs overwriting earlier.
pub open spec fn pair_map(s: Seq<(Seq<char>, u32)>) -> Map<Seq<char>, u32>
    decreases s.len(),
{
    if s.len() == 0 {
        Map::empty()
    } else {
        pair_map(s.drop_last()).insert(s.last().0, s.last().1)
    }
}

/// What a query returns, as a mapping: the name-deduplicated union of the
/// buckets of the query's lowercased tokens.
pub open spec fn query_map(
    m: Map<Seq<char>, Seq<(Seq<char>, u32)>>,
    text: Seq<char>,
) -> Map<Seq<char>, u32> {
    pair_map(gathered(m, spec_tokens(text)))
}

/// The model of a query result: its (name, color) pairs.
pub open spec fn result_pairs(res: Seq<(String, TermColor)>) -> Seq<(Seq<char>, u32)> {
    res.map_values(|p: (String, TermColor)| (p.0@, p.1@))
}

/// Strictly ascending by name: ordered, and no name repeated.
pub open spec fn sorted_by_name(s: Seq<(Seq<char>, u32)>) -> bool {
    forall|i: int, j: int| 0 <= i < j < s.len() ==> lex_lt(#[trigger] s[i].0, #[trigger] s[j].0)
}

/// Whether the pairs contain exactly this (name, color) pair.
pub open spec fn has_pair(s: Seq<(Seq<char>, u32)>, n: Seq<char>, c: u32) -> bool {
    exists|k: int| 0 <= k < s.len() && s[k] == (n, c)
}

/// `lex_lt` never holds of a sequence and itself.
proof fn lemma_lex_irreflexive(a: Seq<char>)
    ensures
        !lex_lt(a, a),
    decreases a.len(),
{
    if a.len() > 0 {
        lemma_lex_irreflexive(a.drop_first());
    }
}

/// What placing one (name, color) pair into a result does: the new pairs
/// hold a pair exactly when it is the placed pair, or an old pair whose
/// name differs from the placed name.
pub open spec fn placed(
    old_pairs: Seq<(Seq<char>, u32)>,
    new_pairs: Seq<(Seq<char>, u32)>,
    name: Seq<char>,
    color: u32,
) -> bool {
    forall|n: Seq<char>, c: u32|
        has_pair(new_pairs, n, c) <==> ((n == name && c == color) || (has_pair(old_pairs, n, c)
            && n != name))
}

/// Place one (name, color) pair into a result ordered by name: replace
/// the pair carrying the same name, or insert at the ordered position.
fn insert_sorted(res: &mut Vec<(String, TermColor)>, name: String, color: u32)
    requires
        sorted_by_name(result_pairs(old(res)@)),
    ensures
        sorted_by_name(result_pairs(final(res)@)),
        placed(result_pairs(old(res)@), result_pairs(final(res)@), name@, color),
{
    let n0 = res.len();
    let mut i: usize = 0;
    loop
        invariant
            res@ == old(res)@,
            n0 == res@.len(),
            0 <= i <= n0,
            forall|j: int| 0 <= j < i ==> lex_lt(#[trigger] result_pairs(res@)[j].0, name@),
        ensures
            res@ == old(res)@,
            0 <= i <= n0,
            forall|j: int| 0 <= j < i ==> lex_lt(#[trigger] result_pairs(res@)[j].0, name@),
            i < n0 ==> !lex_lt(res@[i as int].0@, name@),
        decreases n0 - i,
    {
        if i >= n0 {
            break ;
        }
        if !str_lt(&res[i].0, &name) {
            break ;
        }
        proof {
            assert(result_pairs(res@)[i as int].0 == res@[i as int].0@);
        }
        i = i + 1;
    }
    let ghost opairs = result_pairs(old(res)@);
    let tc = TermColor { rgb: color };
    if i < n0 && res[i].0 == name {
        proof {
            assert(opairs[i as int].0 == name@);
            assert forall|k: int| 0 <= k < opairs.len() && k != i && #[trigger] opairs[k].0 == name@
                implies false by {
                lemma_lex_irreflexive(name@);
            }
        }
        res[i] = (name, tc);
        proof {
            assert(result_pairs(res@) =~= opairs.update(i as int, (name@, color)));
            assert forall|x: int, y: int| 0 <= x < y < result_pairs(res@).len() implies lex_lt(
                #[trigger] result_pairs(res@)[x].0,
                #[trigger] result_pairs(res@)[y].0,
            ) by {
                assert(result_pairs(res@)[x].0 == opairs[x].0);
                assert(result_pairs(res@)[y].0 == opairs[y].0);
            }
            let cur = result_pairs(res@);
            assert forall|n: Seq<char>, c: u32|
                has_pair(cur, n, c) <==> ((n == name@ && c == color) || (has_pair(
                    opairs,
                    n,
                    c,
                ) && n != name@)) by {
                assert(cur == opairs.update(i as int, (name@, color)));
                assert(cur[i as int] == (name@, color));
                if has_pair(cur, n, c) {
                    let k = choose|k: int| 0 <= k < cur.len() && cur[k] == (n, c);
                    if k == i {
                        assert(n == name@ && c == color);
                    } else {
                        assert(opairs[k] == (n, c));
                        assert(has_pair(opairs, n, c));
                        if n == name@ {
                            if k < i {
                                assert(lex_lt(opairs[k].0, opairs[i as int].0));
                            } else {
                                assert(lex_lt(opairs[i as int].0, opairs[k].0));
                            }
                            lemma_lex_irreflexive(name@);
                            assert(false);
                        }
                    }
                }
                if n == name@ && c == color {
                    assert(has_pair(cur, n, c)) by {
                        assert(cur[i as int] == (n, c));
                    }
                }
                if has_pair(opairs, n, c) && n != name@ {
                    let k = choose|k: int| 0 <= k < opairs.len() && opairs[k] == (n, c);
                    assert(k != i);
                    assert(cur[k] == (n, c));
                    assert(has_pair(cur, n, c));
                }
            }
            assert(placed(opairs, cur, name@, color));
            assert(cur == result_pairs(res@));
        }
    } else {
        proof {
            if i < n0 {
                assert(res@[i as int].0@ != name@);
                assert(opairs[i as int].0 == res@[i as int].0@);
                lemma_lex_trichotomy(name@, opairs[i as int].0);
            }
        }
        res.insert(i, (name, tc));
        proof {
            assert(result_pairs(res@) =~= opairs.insert(i as int, (name@, color)));
            let cur = result_pairs(res@);
            assert forall|x: int, y: int| 0 <= x < y < cur.len() implies lex_lt(
                #[trigger] cur[x].0,
                #[trigger] cur[y].0,
            ) by {
                let xi = if x < i { x } else { x - 1 };
                let yi = if y <= i { y } else { y - 1 };
                if x < i {
                    assert(cur[x].0 == opairs[x].0);
                }
                if y < i {
                    assert(cur[y].0 == opairs[y].0);
                }
                if x > i {
                    assert(cur[x].0 == opairs[x - 1].0);
                }
                if y > i {
                    assert(cur[y].0 == opairs[y - 1].0);
                }
                if y == i {
                    assert(x < i);
                    assert(lex_lt(opairs[x].0, name@));
                } else if x == i {
                    assert(y > i);
                    assert(lex_lt(name@, opairs[i as int].0));
                    if y - 1 > i {
                        lemma_lex_transitive(name@, opairs[i as int].0, opairs[y - 1].0);
                    }
                } else if x < i && y > i {
                    if y - 1 == i {
                        assert(lex_lt(opairs[x].0, opairs[i as int].0));
                    }
                }
            }
            assert forall|n: Seq<char>, c: u32|
                has_pair(cur, n, c) <==> ((n == name@ && c == color) || (has_pair(opairs, n, c)
                    && n != name@)) by {
                if has_pair(cur, n, c) {
                    let k = choose|k: int| 0 <= k < cur.len() && cur[k] == (n, c);
                    if k < i {
                        assert(opairs[k] == (n, c));
                        assert(lex_lt(opairs[k].0, name@));
                        lemma_lex_irreflexive(name@);
                    } else if k > i {
                        assert(opairs[k - 1] == (n, c));
                        if n == name@ {
                            assert(k - 1 >= i);
                            if k - 1 == i {
                                lemma_lex_irreflexive(name@);
                            } else {
                                lemma_lex_transitive(name@, opairs[i as int].0, opairs[k - 1].0);
                                lemma_lex_irreflexive(name@);
                            }
                        }
                    }
                }
                if n == name@ && c == color {
                    assert(cur[i as int] == (n, c));
                }
                if has_pair(opairs, n, c) && n != name@ {
                    let k = choose|k: int| 0 <= k < opairs.len() && opairs[k] == (n, c);
                    if k < i {
                        assert(cur[k] == (n, c));
                    } else {
                        assert(cur[k + 1] == (n, c));
                    }
                    assert(has_pair(cur, n, c));
                }
            }
            assert(placed(opairs, result_pairs(res@), name@, color));
        }
    }
}

/// Buckets of unknown tokens contribute nothing.
proof fn lemma_gathered_unknown(m: Map<Seq<char>, Seq<(Seq<char>, u32)>>, toks: Seq<Seq<char>>)
    requires
        forall|k: int| 0 <= k < toks.len() ==> !m.contains_key(lower_seq(#[trigger] toks[k])),
    ensures
        gathered(m, toks).len() == 0,
    decreases toks.len(),
{
    if toks.len() > 0 {
        assert forall|k: int| 0 <= k < toks.drop_last().len() implies !m.contains_key(
            lower_seq(#[trigger] toks.drop_last()[k]),
        ) by {
            assert(toks.drop_last()[k] == toks[k]);
        }
        lemma_gathered_unknown(m, toks.drop_last());
        assert(toks.last() == toks[toks.len() - 1]);
        assert(!m.contains_key(lower_seq(toks.last())));
    }
}

impl ColorMap {
    /// Look up every token of `text` and collect the matches, deduplicated
    /// by name (later buckets overwrite earlier ones) and ordered by name.
    /// An empty result is a value, not an error: it says nothing matched.
    pub fn query(&self, text: &str) -> (res: Vec<(String, TermColor)>)
        requires
            self.wf(),
        ensures
            sorted_by_name(result_pairs(res@)),
            forall|n: Seq<char>, c: u32|
                has_pair(result_pairs(res@), n, c) <==> query_map(self@, text@).contains_pair(n, c),
            (forall|k: int|
                0 <= k < spec_tokens(text@).len() ==> !self@.contains_key(
                    lower_seq(#[trigger] spec_tokens(text@)[k]),
                )) ==> res@.len() == 0,
    {
        let toks = tokenize(text);
        let ghost all = spec_tokens(text@);
        let ghost m = self@;
        let mut res: Vec<(String, TermColor)> = Vec::new();
        proof {
            assert(all.take(0) =~= Seq::<Seq<char>>::empty());
            assert(result_pairs(res@) =~= Seq::<(Seq<char>, u32)>::empty());
        }
        let n = toks.len();
        let mut k: usize = 0;
        while k < n
            invariant
                self.wf(),
                m == self@,
                n == toks@.len(),
                toks.deep_view() == all,
                0 <= k <= n,
                sorted_by_name(result_pairs(res@)),
                forall|nm: Seq<char>, c: u32|
                    has_pair(result_pairs(res@), nm, c) <==> pair_map(
                        gathered(m, all.take(k as int)),
                    ).contains_pair(nm, c),
            decreases n - k,
        {
            let ghost before = gathered(m, all.take(k as int));
            proof {
                assert(all.take(k + 1).drop_last() =~= all.take(k as int));
                assert(all.take(k + 1).last() == all[k as int]);
                assert(toks.deep_view()[k as int] == toks@[k as int]@);
            }
            let key = lower_str(toks[k].as_str());
            match self.find_bucket(&key) {
                None => {
                    proof {
                        assert(gathered(m, all.take(k + 1)) =~= before);
                    }
                },
                Some(b) => {
                    let ghost bseq = bucket_view(b@);
                    proof {
                        assert(bseq == bucket_of(m, lower_seq(all[k as int])));
                        assert(bseq.take(0) =~= Seq::<(Seq<char>, u32)>::empty());
                        assert(before + bseq.take(0) =~= before);
                    }
                    let bn = b.len();
                    let mut j: usize = 0;
                    while j < bn
                        invariant
                            bn == b@.len(),
                            bseq == bucket_view(b@),
                            0 <= j <= bn,
                            sorted_by_name(result_pairs(res@)),
                            forall|nm: Seq<char>, c: u32|
                                has_pair(result_pairs(res@), nm, c) <==> pair_map(
                                    before + bseq.take(j as int),
                                ).contains_pair(nm, c),
                        decreases bn - j,
                    {
                        let name = b[j].0.clone();
                        let color = b[j].1;
                        let ghost prev = result_pairs(res@);
                        let ghost m0 = pair_map(before + bseq.take(j as int));
                        proof {
                            assert(bseq[j as int] == (b@[j as int].0@, b@[j as int].1));
                            assert(name@ == bseq[j as int].0);
                            assert(color == bseq[j as int].1);
                        }
                        insert_sorted(&mut res, name, color);
                        proof {
                            let nm0 = bseq[j as int].0;
                            assert((before + bseq.take(j as int)).push(bseq[j as int]) =~= before
                                + bseq.take(j + 1));
                            assert((before + bseq.take(j + 1)).drop_last() =~= before + bseq.take(
                                j as int,
                            ));
                            assert((before + bseq.take(j + 1)).last() == bseq[j as int]);
                            assert(pair_map(before + bseq.take(j + 1)) == m0.insert(
                                nm0,
                                bseq[j as int].1,
                            ));
                            assert forall|nm: Seq<char>, c: u32|
                                has_pair(result_pairs(res@), nm, c) <==> pair_map(
                                    before + bseq.take(j + 1),
                                ).contains_pair(nm, c) by {
                                if nm == nm0 {
                                    assert(m0.insert(nm0, bseq[j as int].1).contains_pair(nm, c)
                                        <==> c == bseq[j as int].1);
                                } else {
                                    assert(m0.insert(nm0, bseq[j as int].1).contains_pair(nm, c)
                                        <==> m0.contains_pair(nm, c));
                                    assert(has_pair(prev, nm, c) <==> m0.contains_pair(nm, c));
                                }
                            }
                        }
                        j = j + 1;
                    }
                    proof {
                        assert(bseq.take(bn as int) =~= bseq);
                        assert(gathered(m, all.take(k + 1)) == before + bseq);
                    }
                },
            }
            k = k + 1;
        }
        proof {
            assert(all.take(n as int) =~= all);
            if forall|kk: int| 0 <= kk < all.len() ==> !m.contains_key(
                lower_seq(#[trigger] all[kk]),
            ) {
                lemma_gathered_unknown(m, all);
                assert(gathered(m, all) =~= Seq::<(Seq<char>, u32)>::empty());
                if res@.len() > 0 {
                    let p = result_pairs(res@)[0];
                    assert(result_pairs(res@)[0] == (p.0, p.1));
                    assert(has_pair(result_pairs(res@), p.0, p.1));
                    assert(pair_map(gathered(m, all)).contains_pair(p.0, p.1));
                    assert(false);
                }
            }
        }
        res
    }
}

/// Updating one bucket's contents updates the mapping at that key alone.
proof fn lemma_buckets_map_update(
    bs: Seq<(String, Vec<(String, u32)>)>,
    i: int,
    b: Vec<(String, u32)>,
)
    requires
        distinct_keys(bs),
        0 <= i < bs.len(),
    ensures
        buckets_map(bs.update(i, (bs[i].0, b))) == buckets_map(bs).insert(bs[i].0@, bucket_view(b@)),
    decreases bs.len(),
{
    let updated = bs.update(i, (bs[i].0, b));
    if i == bs.len() - 1 {
        assert(updated.drop_last() =~= bs.drop_last());
        assert(updated.last() == (bs[i].0, b));
    } else {
        assert forall|x: int, y: int|
            0 <= x < y < bs.drop_last().len() implies #[trigger] bs.drop_last()[x].0@
            != #[trigger] bs.drop_last()[y].0@ by {
            assert(bs.drop_last()[x] == bs[x]);
            assert(bs.drop_last()[y] == bs[y]);
        }
        lemma_buckets_map_update(bs.drop_last(), i, b);
        assert(updated.drop_last() =~= bs.drop_last().update(i, (bs[i].0, b)));
        assert(bs.drop_last()[i] == bs[i]);
        assert(updated.last() == bs.last());
        assert(bs[i].0@ != bs.last().0@);
        assert(buckets_map(updated) == buckets_map(bs.drop_last()).insert(
            bs[i].0@,
            bucket_view(b@),
        ).insert(bs.last().0@, bucket_view(bs.last().1@)));
        assert(buckets_map(bs.drop_last()).insert(bs[i].0@, bucket_view(b@)).insert(
            bs.last().0@,
            bucket_view(bs.last().1@),
        ) =~= buckets_map(bs).insert(bs[i].0@, bucket_view(b@)));
    }
}

/// Two results both ordered strictly by name and holding the same pairs
/// are the same sequence: a query's contract pins its result, so building
/// and querying twice gives identical ordered results.
pub proof fn lemma_query_deterministic(a: Seq<(Seq<char>, u32)>, b: Seq<(Seq<char>, u32)>)
    requires
        sorted_by_name(a),
        sorted_by_name(b),
        forall|n: Seq<char>, c: u32| has_pair(a, n, c) <==> has_pair(b, n, c),
    ensures
        a == b,
    decreases a.len(),
{
    if a.len() == 0 {
        if b.len() > 0 {
            assert(b[0] == (b[0].0, b[0].1));
            assert(has_pair(b, b[0].0, b[0].1));
            let k = choose|k: int| 0 <= k < a.len() && a[k] == (b[0].0, b[0].1);
            assert(false);
        }
        assert(a =~= b);
    } else {
        assert(a[0] == (a[0].0, a[0].1));
        assert(has_pair(a, a[0].0, a[0].1));
        let kb = choose|k: int| 0 <= k < b.len() && b[k] == (a[0].0, a[0].1);
        assert(b[0] == (b[0].0, b[0].1));
        assert(has_pair(b, b[0].0, b[0].1));
        let ka = choose|k: int| 0 <= k < a.len() && a[k] == (b[0].0, b[0].1);
        if kb > 0 && ka > 0 {
            assert(lex_lt(b[0].0, b[kb].0));
            assert(lex_lt(a[0].0, a[ka].0));
            lemma_lex_asymmetric(a[0].0, b[0].0);
            assert(false);
        }
        if kb == 0 {
            assert(b[0] == a[0]);
        } else {
            assert(a[ka] == (b[0].0, b[0].1));
            assert(a[0].0 == b[kb].0 && b[kb].0 == a[0].0);
            assert(a[0] == (a[0].0, a[0].1));
            assert(b[kb] == (a[0].0, a[0].1));
            if a[0].0 == b[0].0 {
                assert(lex_lt(b[0].0, b[kb].0));
                lemma_lex_irreflexive(a[0].0);
                assert(false);
            }
            assert(lex_lt(a[0].0, a[ka].0));
            lemma_lex_irreflexive(a[0].0);
            assert(ka > 0);
            assert(false);
        }
        let ad = a.drop_first();
        let bd = b.drop_first();
        assert forall|x: int, y: int| 0 <= x < y < ad.len() implies lex_lt(
            #[trigger] ad[x].0,
            #[trigger] ad[y].0,
        ) by {
            assert(ad[x] == a[x + 1]);
            assert(ad[y] == a[y + 1]);
        }
        assert forall|x: int, y: int| 0 <= x < y < bd.len() implies lex_lt(
            #[trigger] bd[x].0,
            #[trigger] bd[y].0,
        ) by {
            assert(bd[x] == b[x + 1]);
            assert(bd[y] == b[y + 1]);
        }
        assert forall|n: Seq<char>, c: u32| has_pair(ad, n, c) <==> has_pair(bd, n, c) by {
            if has_pair(ad, n, c) {
                let k = choose|k: int| 0 <= k < ad.len() && ad[k] == (n, c);
                assert(a[k + 1] == (n, c));
                assert(has_pair(a, n, c));
                let k2 = choose|k2: int| 0 <= k2 < b.len() && b[k2] == (n, c);
                if k2 == 0 {
                    assert(n == b[0].0 && b[0].0 == a[0].0);
                    assert(lex_lt(a[0].0, a[k + 1].0));
                    lemma_lex_irreflexive(n);
                    assert(false);
                }
                assert(bd[k2 - 1] == (n, c));
                assert(has_pair(bd, n, c));
            }
            if has_pair(bd, n, c) {
                let k = choose|k: int| 0 <= k < bd.len() && bd[k] == (n, c);
                assert(b[k + 1] == (n, c));
                assert(has_pair(b, n, c));
                let k2 = choose|k2: int| 0 <= k2 < a.len() && a[k2] == (n, c);
                if k2 == 0 {
                    assert(n == a[0].0 && a[0].0 == b[0].0);
                    assert(lex_lt(b[0].0, b[k + 1].0));
                    lemma_lex_irreflexive(n);
                    assert(false);
                }
                assert(ad[k2 - 1] == (n, c));
                assert(has_pair(ad, n, c));
            }
        }
        lemma_query_deterministic(ad, bd);
        assert(ad.len() == a.len() - 1);
        assert(bd.len() == b.len() - 1);
        assert forall|i: int| 0 <= i < a.len() implies a[i] == b[i] by {
            if i > 0 {
                assert(ad[i - 1] == a[i]);
                assert(bd[i - 1] == b[i]);
            }
        }
        assert(a =~= b);
    }
}

/// Querying with a lowercased text finds what querying with the text
/// itself finds: queries are case-insensitive.
pub proof fn lemma_query_case_insensitive(m: Map<Seq<char>, Seq<(Seq<char>, u32)>>, q: Seq<char>)
    ensures
        query_map(m, lower_seq(q)) == query_map(m, q),
{
    lemma_tokens_lower(q);
    lemma_gathered_lower(m, spec_tokens(q));
}

/// A lowered token list gathers the same pairs: bucket keys are already
/// lowercased, and lowercasing is idempotent.
proof fn lemma_gathered_lower(m: Map<Seq<char>, Seq<(Seq<char>, u32)>>, toks: Seq<Seq<char>>)
    ensures
        gathered(m, toks.map_values(|t: Seq<char>| lower_seq(t))) == gathered(m, toks),
    decreases toks.len(),
{
    let lt = toks.map_values(|t: Seq<char>| lower_seq(t));
    if toks.len() == 0 {
        assert(lt =~= toks);
    } else {
        lemma_gathered_lower(m, toks.drop_last());
        assert(lt.drop_last() =~= toks.drop_last().map_values(|t: Seq<char>| lower_seq(t)));
        assert(lt.last() == lower_seq(toks.last()));
        lemma_lower_seq_idempotent(toks.last());
        assert(bucket_of(m, lower_seq(lt.last())) == bucket_of(m, lower_seq(toks.last())));
    }
}

/// A pushed bucket holds an element exactly when the old bucket held it
/// or it is the pushed pair.
proof fn lemma_push_contains(s: Seq<(Seq<char>, u32)>, x: (Seq<char>, u32), p: (Seq<char>, u32))
    ensures
        s.push(x).contains(p) <==> (s.contains(p) || p == x),
{
    if s.push(x).contains(p) {
        let k = choose|k: int| 0 <= k < s.push(x).len() && s.push(x)[k] == p;
        if k < s.len() {
            assert(s[k] == p);
        }
    }
    if s.contains(p) {
        let k = choose|k: int| 0 <= k < s.len() && s[k] == p;
        assert(s.push(x)[k] == p);
    }
    assert(s.push(x)[s.len() as int] == x);
}

/// Every pair filed by `add_tokens` is an old pair or the filed pair.
proof fn lemma_add_tokens_source(
    m: Map<Seq<char>, Seq<(Seq<char>, u32)>>,
    toks: Seq<Seq<char>>,
    nm: Seq<char>,
    c: u32,
    t: Seq<char>,
    p: (Seq<char>, u32),
)
    requires
        bucket_of(add_tokens(m, toks, nm, c), t).contains(p),
    ensures
        bucket_of(m, t).contains(p) || p == (nm, c),
    decreases toks.len(),
{
    if toks.len() > 0 {
        let m1 = add_token(m, toks[0], nm, c);
        lemma_add_tokens_source(m1, toks.drop_first(), nm, c, t, p);
        if bucket_of(m1, t).contains(p) {
            if t == lower_seq(toks[0]) {
                lemma_push_contains(bucket_of(m, t), (nm, c), p);
            } else {
                assert(bucket_of(m1, t) == bucket_of(m, t));
            }
        }
    }
}

/// Every pair in the index of a dataset comes from some colored entry:
/// its lowercased name paired with its parsed color.
pub proof fn lemma_index_source(entries: Seq<EntryModel>, t: Seq<char>, p: (Seq<char>, u32))
    requires
        bucket_of(index_of(entries), t).contains(p),
    ensures
        exists|j: int|
            0 <= j < entries.len() && (#[trigger] entries[j]).color is Some && p == (
                lower_seq(entries[j].name),
                hex_color_val(entries[j].color->0) as u32,
            ),
    decreases entries.len(),
{
    let prev = index_of(entries.drop_last());
    let e = entries.last();
    if e.color is Some {
        lemma_add_tokens_source(
            prev,
            entry_tokens(e),
            lower_seq(e.name),
            hex_color_val(e.color->0) as u32,
            t,
            p,
        );
        if p == (lower_seq(e.name), hex_color_val(e.color->0) as u32) {
            assert(entries[entries.len() - 1] == e);
        } else {
            lemma_index_source(entries.drop_last(), t, p);
            let j = choose|j: int|
                0 <= j < entries.drop_last().len() && (#[trigger] entries.drop_last()[j]).color is Some
                    && p == (
                    lower_seq(entries.drop_last()[j].name),
                    hex_color_val(entries.drop_last()[j].color->0) as u32,
                );
            assert(entries[j] == entries.drop_last()[j]);
        }
    } else {
        lemma_index_source(entries.drop_last(), t, p);
        let j = choose|j: int|
            0 <= j < entries.drop_last().len() && (#[trigger] entries.drop_last()[j]).color is Some
                && p == (
                lower_seq(entries.drop_last()[j].name),
                hex_color_val(entries.drop_last()[j].color->0) as u32,
            );
        assert(entries[j] == entries.drop_last()[j]);
    }
}

/// Pairs already filed stay in their buckets as more are filed.
proof fn lemma_add_tokens_keeps(
    m: Map<Seq<char>, Seq<(Seq<char>, u32)>>,
    toks: Seq<Seq<char>>,
    nm: Seq<char>,
    c: u32,
    t: Seq<char>,
    p: (Seq<char>, u32),
)
    requires
        bucket_of(m, t).contains(p),
    ensures
        bucket_of(add_tokens(m, toks, nm, c), t).contains(p),
    decreases toks.len(),
{
    if toks.len() > 0 {
        let m1 = add_token(m, toks[0], nm, c);
        if t == lower_seq(toks[0]) {
            lemma_push_contains(bucket_of(m, t), (nm, c), p);
        } else {
            assert(bucket_of(m1, t) == bucket_of(m, t));
        }
        lemma_add_tokens_keeps(m1, toks.drop_first(), nm, c, t, p);
    }
}

/// Filing an entry puts its pair into the bucket of each of its tokens.
proof fn lemma_add_tokens_adds(
    m: Map<Seq<char>, Seq<(Seq<char>, u32)>>,
    toks: Seq<Seq<char>>,
    nm: Seq<char>,
    c: u32,
    k: int,
)
    requires
        0 <= k < toks.len(),
    ensures
        bucket_of(add_tokens(m, toks, nm, c), lower_seq(toks[k])).contains((nm, c)),
    decreases toks.len(),
{
    let m1 = add_token(m, toks[0], nm, c);
    if k == 0 {
        let b1 = bucket_of(m1, lower_seq(toks[0]));
        assert(b1 == bucket_of(m, lower_seq(toks[0])).push((nm, c)));
        assert(b1[b1.len() - 1] == (nm, c));
        assert(b1.contains((nm, c)));
        lemma_add_tokens_keeps(m1, toks.drop_first(), nm, c, lower_seq(toks[0]), (nm, c));
    } else {
        lemma_add_tokens_adds(m1, toks.drop_first(), nm, c, k - 1);
        assert(toks.drop_first()[k - 1] == toks[k]);
    }
}

/// After indexing, a colored entry's pair is in the bucket of each of its
/// tokens.
pub proof fn lemma_index_adds(entries: Seq<EntryModel>, i: int, k: int)
    requires
        0 <= i < entries.len(),
        entries[i].color is Some,
        0 <= k < entry_tokens(entries[i]).len(),
    ensures
        bucket_of(index_of(entries), lower_seq(entry_tokens(entries[i])[k])).contains(
            (lower_seq(entries[i].name), hex_color_val(entries[i].color->0) as u32),
        ),
    decreases entries.len(),
{
    let prev = index_of(entries.drop_last());
    let e = entries.last();
    if i == entries.len() - 1 {
        lemma_add_tokens_adds(
            prev,
            entry_tokens(e),
            lower_seq(e.name),
            hex_color_val(e.color->0) as u32,
            k,
        );
    } else {
        assert(entries.drop_last()[i] == entries[i]);
        lemma_index_adds(entries.drop_last(), i, k);
        if e.color is Some {
            lemma_add_tokens_keeps(
                prev,
                entry_tokens(e),
                lower_seq(e.name),
                hex_color_val(e.color->0) as u32,
                lower_seq(entry_tokens(entries[i])[k]),
                (lower_seq(entries[i].name), hex_color_val(entries[i].color->0) as u32),
            );
        }
    }
}

/// When a name occurs among gathered pairs and always with the same color,
/// the deduplicated mapping carries that (name, color).
proof fn lemma_pair_map_key(s: Seq<(Seq<char>, u32)>, n: Seq<char>, c: u32)
    requires
        exists|k: int| 0 <= k < s.len() && #[trigger] s[k] == (n, c),
        forall|k: int| 0 <= k < s.len() && (#[trigger] s[k]).0 == n ==> s[k].1 == c,
    ensures
        pair_map(s).contains_pair(n, c),
    decreases s.len(),
{
    let last = s.last();
    if last.0 == n {
        assert(last.1 == c) by {
            assert(s[s.len() - 1] == last);
        }
        assert(pair_map(s) == pair_map(s.drop_last()).insert(n, c));
    } else {
        let k = choose|k: int| 0 <= k < s.len() && #[trigger] s[k] == (n, c);
        assert(k < s.len() - 1);
        assert(s.drop_last()[k] == s[k]);
        assert forall|j: int| 0 <= j < s.drop_last().len() && (#[trigger] s.drop_last()[j]).0 == n
            implies s.drop_last()[j].1 == c by {
            assert(s.drop_last()[j] == s[j]);
        }
        lemma_pair_map_key(s.drop_last(), n, c);
    }
}

/// A pair in some query token's bucket is among the gathered pairs.
proof fn lemma_gathered_has(
    m: Map<Seq<char>, Seq<(Seq<char>, u32)>>,
    toks: Seq<Seq<char>>,
    k: int,
    p: (Seq<char>, u32),
)
    requires
        0 <= k < toks.len(),
        bucket_of(m, lower_seq(toks[k])).contains(p),
    ensures
        gathered(m, toks).contains(p),
    decreases toks.len(),
{
    if k == toks.len() - 1 {
        let b = bucket_of(m, lower_seq(toks.last()));
        let j = choose|j: int| 0 <= j < b.len() && b[j] == p;
        assert(gathered(m, toks)[gathered(m, toks.drop_last()).len() + j] == p);
    } else {
        assert(toks.drop_last()[k] == toks[k]);
        lemma_gathered_has(m, toks.drop_last(), k, p);
        let g = gathered(m, toks.drop_last());
        let j = choose|j: int| 0 <= j < g.len() && g[j] == p;
        assert(gathered(m, toks)[j] == p);
    }
}

/// Every gathered pair lies in the bucket of some query token.
proof fn lemma_gathered_source(
    m: Map<Seq<char>, Seq<(Seq<char>, u32)>>,
    toks: Seq<Seq<char>>,
    p: (Seq<char>, u32),
)
    requires
        gathered(m, toks).contains(p),
    ensures
        exists|k: int|
            0 <= k < toks.len() && bucket_of(m, lower_seq(#[trigger] toks[k])).contains(p),
    decreases toks.len(),
{
    let g = gathered(m, toks);
    let j = choose|j: int| 0 <= j < g.len() && g[j] == p;
    let gp = gathered(m, toks.drop_last());
    if j < gp.len() {
        assert(gp[j] == p);
        lemma_gathered_source(m, toks.drop_last(), p);
        let k = choose|k: int|
            0 <= k < toks.drop_last().len() && bucket_of(
                m,
                lower_seq(#[trigger] toks.drop_last()[k]),
            ).contains(p);
        assert(toks[k] == toks.drop_last()[k]);
    } else {
        let b = bucket_of(m, lower_seq(toks.last()));
        assert(b[j - gp.len()] == p);
        assert(b.contains(p));
        assert(toks[toks.len() - 1] == toks.last());
    }
}

/// Names are unique, ignoring ASCII case: the dataset is a mapping with
/// case-insensitive keys.
pub open spec fn distinct_lower_names(entries: Seq<EntryModel>) -> bool {
    forall|x: int, y: int|
        0 <= x < y < entries.len() ==> lower_seq(#[trigger] entries[x].name) != lower_seq(
            #[trigger] entries[y].name,
        )
}

/// The index round-trip: in a dataset whose names are unique up to ASCII
/// case, querying the built index with a colored entry's canonical name
/// (provided the name holds at least one token) finds that entry's
/// lowercased name, mapped to that entry's parsed color.
pub proof fn lemma_index_round_trip(entries: Seq<EntryModel>, i: int)
    requires
        distinct_lower_names(entries),
        0 <= i < entries.len(),
        entries[i].color is Some,
        spec_tokens(entries[i].name).len() > 0,
    ensures
        query_map(index_of(entries), entries[i].name).contains_pair(
            lower_seq(entries[i].name),
            hex_color_val(entries[i].color->0) as u32,
        ),
{
    let m = index_of(entries);
    let e = entries[i];
    let toks = spec_tokens(e.name);
    let nm = lower_seq(e.name);
    let c = hex_color_val(e.color->0) as u32;
    let texts = texts_of(e);

    // the name's tokens open the entry's token list
    assert(texts[0] == e.name);
    assert(entry_tokens(e) == spec_tokens(e.name) + tokens_of_texts(texts.drop_first()));
    assert(entry_tokens(e)[0] == toks[0]);
    assert(0 < entry_tokens(e).len());

    // so the first query token's bucket holds the entry's pair
    lemma_index_adds(entries, i, 0);
    lemma_gathered_has(m, toks, 0, (nm, c));

    // and every gathered pair named nm carries color c
    assert forall|k: int| 0 <= k < gathered(m, toks).len() && (#[trigger] gathered(m, toks)[k]).0
        == nm implies gathered(m, toks)[k].1 == c by {
        let p = gathered(m, toks)[k];
        assert(gathered(m, toks).contains(p));
        lemma_gathered_source(m, toks, p);
        lemma_index_source(entries, lower_seq(toks[choose|kk: int|
            0 <= kk < toks.len() && bucket_of(m, lower_seq(#[trigger] toks[kk])).contains(p)]), p);
        let j = choose|j: int|
            0 <= j < entries.len() && (#[trigger] entries[j]).color is Some && p == (
                lower_seq(entries[j].name),
                hex_color_val(entries[j].color->0) as u32,
            );
        if j != i {
            if j < i {
                assert(lower_seq(entries[j].name) != lower_seq(entries[i].name));
            } else {
                assert(lower_seq(entries[i].name) != lower_seq(entries[j].name));
            }
            assert(false);
        }
    }
    let g = gathered(m, toks);
    let w = choose|w: int| 0 <= w < g.len() && g[w] == (nm, c);
    assert(g[w] == (nm, c));
    lemma_pair_map_key(g, nm, c);
}

} // verus!
