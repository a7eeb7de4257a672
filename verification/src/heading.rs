//! The heading registry: it derives a slug for every registered heading
//! title, disambiguates colliding slugs with increasing integer suffixes,
//! and accumulates the document outline. Also the TOC builder, which turns
//! a finished outline into nested-list HTML.

use vstd::prelude::*;
use vstd::assert_by_contradiction;

use crate::slug::{anchor_shaped, dec_str, is_anchor_char, lemma_dec_str_chars,
    lemma_dec_str_injective, lemma_dec_str_len, lemma_slug_anchor_shaped, slug_of, slugify,
    to_decimal};

verus! {

broadcast use vstd::seq_lib::group_seq_properties;

// ---------------------------------------------------------------------------
// Heading levels and headings
// ---------------------------------------------------------------------------

/// One of the six levels a heading can have; no other values exist.
#[derive(Clone, Copy, PartialEq, Eq, Structural, Debug)]
pub enum HeadingLevel {
    H1,
    H2,
    H3,
    H4,
    H5,
    H6,
}

impl HeadingLevel {
    /// The ordinal of the level: 1 for H1 through 6 for H6.
    pub open spec fn ordinal(self) -> int {
        match self {
            HeadingLevel::H1 => 1,
            HeadingLevel::H2 => 2,
            HeadingLevel::H3 => 3,
            HeadingLevel::H4 => 4,
            HeadingLevel::H5 => 5,
            HeadingLevel::H6 => 6,
        }
    }

    /// The ordinal of the level as a number.
    pub fn as_number(self) -> (n: u8)
        ensures
            n as int == self.ordinal(),
    {
        match self {
            HeadingLevel::H1 => 1,
            HeadingLevel::H2 => 2,
            HeadingLevel::H3 => 3,
            HeadingLevel::H4 => 4,
            HeadingLevel::H5 => 5,
            HeadingLevel::H6 => 6,
        }
    }

    /// The level with the given ordinal, if it is in 1..=6.
    pub fn from_number(n: u8) -> (r: Option<HeadingLevel>)
        ensures
            1 <= n <= 6 ==> (r matches Some(l) && l.ordinal() == n as int),
            !(1 <= n <= 6) ==> r is None,
    {
        match n {
            1 => Some(HeadingLevel::H1),
            2 => Some(HeadingLevel::H2),
            3 => Some(HeadingLevel::H3),
            4 => Some(HeadingLevel::H4),
            5 => Some(HeadingLevel::H5),
            6 => Some(HeadingLevel::H6),
            _ => None,
        }
    }
}

/// The mathematical value of a heading: its level ordinal, anchor and title.
#[verifier::ext_equal]
pub ghost struct HeadingV {
    pub level: int,
    pub anchor: Seq<char>,
    pub title: Seq<char>,
}

/// A heading of the document: its level, its unique anchor and its title
/// (the concatenated inline text of the heading).
#[derive(Debug)]
pub struct Heading {
    pub level: HeadingLevel,
    pub anchor: String,
    pub title: String,
}

impl View for Heading {
    type V = HeadingV;

    open spec fn view(&self) -> HeadingV {
        HeadingV { level: self.level.ordinal(), anchor: self.anchor@, title: self.title@ }
    }
}

/// The views of a sequence of headings.
pub open spec fn heading_views(hs: Seq<Heading>) -> Seq<HeadingV> {
    hs.map_values(|h: Heading| h@)
}

/// The anchors of an outline, in order.
pub open spec fn anchors_of(outline: Seq<HeadingV>) -> Seq<Seq<char>> {
    outline.map_values(|h: HeadingV| h.anchor)
}

/// No two headings of the outline share an anchor.
pub open spec fn anchors_distinct(outline: Seq<HeadingV>) -> bool {
    forall|i: int, j: int| 0 <= i < j < outline.len() ==> outline[i].anchor != outline[j].anchor
}

// ---------------------------------------------------------------------------
// Anchor resolution: the collision sequence base, base-2, base-3, ...
// ---------------------------------------------------------------------------

/// The k-th collision candidate for a base slug: `base-k`.
pub open spec fn suffixed(base: Seq<char>, k: nat) -> Seq<char> {
    base + seq!['-'] + dec_str(k)
}

/// `k` is the first free suffix: every smaller suffix from 2 on collides.
pub open spec fn is_first_free(existing: Seq<Seq<char>>, base: Seq<char>, k: nat) -> bool {
    &&& k >= 2
    &&& !existing.contains(suffixed(base, k))
    &&& forall|j: nat| 2 <= j < k ==> existing.contains(#[trigger] suffixed(base, j))
}

/// The anchor issued for a base slug against a set of existing anchors:
/// the base itself if it is still free, else `base-k` for the smallest
/// free `k >= 2`.
pub open spec fn resolved_anchor(existing: Seq<Seq<char>>, base: Seq<char>) -> Seq<char> {
    if !existing.contains(base) {
        base
    } else {
        suffixed(base, choose|k: nat| is_first_free(existing, base, k))
    }
}

proof fn lemma_suffixed_injective(base: Seq<char>, j: nat, k: nat)
    requires
        suffixed(base, j) == suffixed(base, k),
    ensures
        j == k,
{
    let u = suffixed(base, j);
    let v = suffixed(base, k);
    lemma_dec_str_len(j);
    lemma_dec_str_len(k);
    assert(u.subrange(base.len() as int + 1, u.len() as int) =~= dec_str(j));
    assert(v.subrange(base.len() as int + 1, v.len() as int) =~= dec_str(k));
    lemma_dec_str_injective(j, k);
}

proof fn lemma_suffixed_ne_base(base: Seq<char>, k: nat)
    ensures
        suffixed(base, k) != base,
{
    lemma_dec_str_len(k);
    assert(suffixed(base, k).len() > base.len());
}

/// If the candidates for every suffix in [lo, hi) all sit in a finite set,
/// the set has at least hi - lo elements: candidates are pairwise distinct.
proof fn lemma_candidates_bound(s: Set<Seq<char>>, base: Seq<char>, lo: nat, hi: nat)
    requires
        s.finite(),
        lo <= hi,
        forall|j: nat| lo <= j < hi ==> s.contains(#[trigger] suffixed(base, j)),
    ensures
        hi - lo <= s.len(),
    decreases hi - lo,
{
    if lo < hi {
        let last = (hi - 1) as nat;
        let e = suffixed(base, last);
        let s2 = s.remove(e);
        assert(s.contains(e));
        assert(s2.len() == s.len() - 1);
        assert forall|j: nat| lo <= j < last implies s2.contains(#[trigger] suffixed(base, j)) by {
            if suffixed(base, j) == suffixed(base, last) {
                lemma_suffixed_injective(base, j, last);
            }
        }
        lemma_candidates_bound(s2, base, lo, last);
    }
}

proof fn lemma_first_free_below(existing: Seq<Seq<char>>, base: Seq<char>, k: nat, k0: nat)
    requires
        2 <= k <= k0,
        !existing.contains(suffixed(base, k0)),
        forall|j: nat| 2 <= j < k ==> existing.contains(#[trigger] suffixed(base, j)),
    ensures
        exists|m: nat| is_first_free(existing, base, m),
    decreases k0 - k,
{
    if !existing.contains(suffixed(base, k)) {
        assert(is_first_free(existing, base, k));
    } else {
        lemma_first_free_below(existing, base, k + 1, k0);
    }
}

proof fn lemma_first_free_exists(existing: Seq<Seq<char>>, base: Seq<char>)
    ensures
        exists|m: nat| is_first_free(existing, base, m),
{
    let s = existing.to_set();
    vstd::seq_lib::seq_to_set_is_finite(existing);
    existing.lemma_cardinality_of_set();
    let n = existing.len();
    assert_by_contradiction!(exists|k: nat| 2 <= k < n + 3 && !existing.contains(#[trigger] suffixed(base, k)), {
        assert forall|j: nat| 2 <= j < n + 3 implies s.contains(#[trigger] suffixed(base, j)) by {
            assert(existing.contains(suffixed(base, j)));
        }
        lemma_candidates_bound(s, base, 2, (n + 3) as nat);
    });
    let k0 = choose|k: nat| 2 <= k < n + 3 && !existing.contains(#[trigger] suffixed(base, k));
    lemma_first_free_below(existing, base, 2, k0);
}

proof fn lemma_first_free_unique(existing: Seq<Seq<char>>, base: Seq<char>, k1: nat, k2: nat)
    requires
        is_first_free(existing, base, k1),
        is_first_free(existing, base, k2),
    ensures
        k1 == k2,
{
    if k1 < k2 {
        assert(existing.contains(suffixed(base, k1)));
    }
    if k2 < k1 {
        assert(existing.contains(suffixed(base, k2)));
    }
}

/// The resolved anchor is never one of the existing anchors.
pub proof fn lemma_resolved_fresh(existing: Seq<Seq<char>>, base: Seq<char>)
    ensures
        !existing.contains(resolved_anchor(existing, base)),
{
    if existing.contains(base) {
        lemma_first_free_exists(existing, base);
        let k = choose|k: nat| is_first_free(existing, base, k);
        assert(is_first_free(existing, base, k));
    }
}

/// Anchors the registry issues are URL-fragment safe: every character of
/// the anchor resolved for any title, against any existing anchors, is an
/// ASCII lowercase letter, a digit or a hyphen.
pub proof fn lemma_resolved_anchor_shaped(existing: Seq<Seq<char>>, title: Seq<char>)
    ensures
        anchor_shaped(resolved_anchor(existing, slug_of(title))),
{
    let base = slug_of(title);
    lemma_slug_anchor_shaped(title);
    if existing.contains(base) {
        let k = choose|k: nat| is_first_free(existing, base, k);
        let a = suffixed(base, k);
        lemma_dec_str_chars(k);
        assert forall|i: int| 0 <= i < a.len() implies is_anchor_char(#[trigger] a[i]) by {
            if i < base.len() {
                assert(a[i] == base[i]);
            } else if i == base.len() {
                assert(a[i] == '-');
            } else {
                assert(a[i] == dec_str(k)[i - base.len() - 1]);
            }
        }
    }
}

// ---------------------------------------------------------------------------
// The registry
// ---------------------------------------------------------------------------

/// The heading registry: the outline of registered headings together with
/// the set of anchors issued so far, kept in lockstep.
pub struct Headings {
    list: Vec<Heading>,
    existing_anchors: Vec<String>,
}

impl View for Headings {
    type V = Seq<HeadingV>;

    closed spec fn view(&self) -> Seq<HeadingV> {
        heading_views(self.list@)
    }
}

impl Headings {
    /// The anchors issued so far, in order of registration.
    pub closed spec fn issued(&self) -> Seq<Seq<char>> {
        self.existing_anchors@.map_values(|s: String| s@)
    }

    /// Well-formedness: the issued anchors are exactly the outline's anchors,
    /// and no anchor was issued twice.
    pub closed spec fn wf(&self) -> bool {
        &&& self.issued() == anchors_of(self@)
        &&& anchors_distinct(self@)
    }

    fn contains_anchor(&self, s: &String) -> (b: bool)
        ensures
            b == self.issued().contains(s@),
    {
        let n = self.existing_anchors.len();
        let mut i: usize = 0;
        while i < n
            invariant
                n == self.existing_anchors@.len(),
                0 <= i <= n,
                forall|j: int| 0 <= j < i ==> self.existing_anchors@[j]@ != s@,
            decreases n - i,
        {
            if self.existing_anchors[i] == *s {
                proof {
                    assert(self.issued()[i as int] == s@);
                }
                return true;
            }
            i = i + 1;
        }
        proof {
            assert_by_contradiction!(!self.issued().contains(s@), {
                let w = choose|w: int| 0 <= w < self.issued().len() && self.issued()[w] == s@;
                assert(self.existing_anchors@[w]@ == s@);
            });
        }
        false
    }

    /// Registers a heading and returns the anchor issued for it: the slug of
    /// the title, disambiguated against every anchor issued before.
    pub fn add(&mut self, level: HeadingLevel, title: &str) -> (anchor: String)
        requires
            old(self).wf(),
        ensures
            final(self).wf(),
            anchor@ == resolved_anchor(anchors_of(old(self)@), slug_of(title@)),
            final(self)@ == old(self)@.push(
                HeadingV { level: level.ordinal(), anchor: anchor@, title: title@ },
            ),
            anchors_distinct(final(self)@),
    {
        let main = slugify(title);

        let mut anchor = main.clone();
        let mut index: u128 = 1;
        while self.contains_anchor(&anchor)
            invariant
                *self == *old(self),
                self.wf(),
                main@ == slug_of(title@),
                1 <= index,
                anchor@ == if index == 1 {
                    main@
                } else {
                    suffixed(main@, index as nat)
                },
                index >= 2 ==> self.issued().contains(main@),
                forall|j: nat| 2 <= j < index as nat ==> self.issued().contains(
                    #[trigger] suffixed(main@, j),
                ),
                index >= 2 ==> index - 1 <= self.issued().len(),
            decreases self.issued().len() + 2 - index,
        {
            proof {
                // The candidate now known to collide bounds the suffix index:
                // all candidates tried so far are distinct and all collide.
                let s = self.issued().to_set();
                vstd::seq_lib::seq_to_set_is_finite(self.issued());
                self.issued().lemma_cardinality_of_set();
                if index >= 2 {
                    let s2 = s.remove(main@);
                    assert(s.contains(main@));
                    assert forall|j: nat| 2 <= j < index as nat + 1 implies s2.contains(
                        #[trigger] suffixed(main@, j),
                    ) by {
                        lemma_suffixed_ne_base(main@, j);
                        assert(self.issued().contains(suffixed(main@, j)));
                    }
                    lemma_candidates_bound(s2, main@, 2, index as nat + 1);
                    assert(index as int + 1 - 2 <= s2.len());
                    assert(s2.len() == s.len() - 1);
                }
                assert(self.existing_anchors.len() as int == self.issued().len() as int);
                assert(self.issued().len() <= usize::MAX);
            }
            index = index + 1;
            let d = to_decimal(index);
            let mut next = main.clone();
            next.append("-");
            next.append(d.as_str());
            proof {
                reveal_strlit("-");
                assert("-"@ =~= seq!['-']);
                assert(next@ =~= suffixed(main@, index as nat));
            }
            anchor = next;
        }

        proof {
            let existing = anchors_of(old(self)@);
            assert(existing == self.issued());
            if index == 1 {
                assert(anchor@ == resolved_anchor(existing, main@));
            } else {
                assert(is_first_free(existing, main@, index as nat));
                lemma_first_free_exists(existing, main@);
                let k = choose|k: nat| is_first_free(existing, main@, k);
                assert(is_first_free(existing, main@, k));
                lemma_first_free_unique(existing, main@, k, index as nat);
                assert(anchor@ == resolved_anchor(existing, main@));
            }
            lemma_resolved_fresh(existing, main@);
        }

        self.existing_anchors.push(anchor.clone());
        self.list.push(Heading { level, anchor: anchor.clone(), title: title.to_owned() });

        proof {
            assert(self@ =~= old(self)@.push(
                HeadingV { level: level.ordinal(), anchor: anchor@, title: title@ },
            ));
            assert(self.issued() =~= anchors_of(old(self)@).push(anchor@));
            assert(anchors_of(self@) =~= anchors_of(old(self)@).push(anchor@));
            assert forall|i: int, j: int| 0 <= i < j < self@.len() implies self@[i].anchor
                != self@[j].anchor by {
                if j == self@.len() - 1 {
                    assert(anchors_of(old(self)@)[i] == old(self)@[i].anchor);
                    assert(!anchors_of(old(self)@).contains(anchor@));
                }
            }
        }

        anchor
    }

    /// Consumes the registry and hands out the outline in document order.
    pub fn finish(self) -> (r: Vec<Heading>)
        ensures
            heading_views(r@) == self@,
    {
        self.list
    }
}

impl Default for Headings {
    /// An empty registry: no headings, no issued anchors.
    fn default() -> (r: Self)
        ensures
            r@ == Seq::<HeadingV>::empty(),
            r.wf(),
    {
        let r = Headings { list: Vec::new(), existing_anchors: Vec::new() };
        proof {
            assert(r@ =~= Seq::<HeadingV>::empty());
            assert(r.issued() =~= anchors_of(r@));
        }
        r
    }
}

// ---------------------------------------------------------------------------
// The TOC builder
// ---------------------------------------------------------------------------

/// Opener emitted once per level stepped up.
pub open spec fn toc_open() -> Seq<char> {
    "\n<ul>\n"@
}

/// Closer emitted once per level stepped down (and once per level open at
/// the end).
pub open spec fn toc_close() -> Seq<char> {
    "</li>\n</ul>\n"@
}

/// Closer of the current item when a sibling or outer heading follows.
pub open spec fn toc_item_close() -> Seq<char> {
    "</li>\n"@
}

pub open spec fn toc_opens(n: int) -> Seq<char>
    decreases n,
{
    if n <= 0 {
        Seq::empty()
    } else {
        toc_open() + toc_opens(n - 1)
    }
}

pub open spec fn toc_closes(n: int) -> Seq<char>
    decreases n,
{
    if n <= 0 {
        Seq::empty()
    } else {
        toc_close() + toc_closes(n - 1)
    }
}

/// The list item for one heading: a link to its anchor labelled by its title.
pub open spec fn toc_item(h: HeadingV) -> Seq<char> {
    "<li><a href=\"#"@ + h.anchor + "\">"@ + h.title + "</a>"@
}

/// What is emitted just before the item of a heading at `level` when `last`
/// levels of list are open: openers on the way up, else closers and the end
/// of the current item on the way down (or for a sibling).
pub open spec fn toc_transition(level: int, last: int) -> Seq<char> {
    if level > last {
        toc_opens(level - last)
    } else {
        toc_closes(last - level) + toc_item_close()
    }
}

/// The rest of the TOC from heading `i` on, with `last` levels of list open.
pub open spec fn toc_from(hs: Seq<HeadingV>, i: int, last: int) -> Seq<char>
    decreases hs.len() - i,
{
    if i < 0 || i >= hs.len() {
        toc_closes(last)
    } else {
        toc_transition(hs[i].level, last) + toc_item(hs[i]) + toc_from(hs, i + 1, hs[i].level)
    }
}

/// The nested-list HTML of a whole outline; empty for an empty outline.
pub open spec fn toc_html(hs: Seq<HeadingV>) -> Seq<char> {
    toc_from(hs, 0, 0)
}

proof fn lemma_toc_opens_snoc(n: int)
    requires
        n >= 0,
    ensures
        toc_opens(n + 1) == toc_opens(n) + toc_open(),
    decreases n,
{
    if n > 0 {
        lemma_toc_opens_snoc(n - 1);
        assert(toc_opens(n + 1) =~= toc_opens(n) + toc_open());
    } else {
        assert(toc_opens(1) =~= toc_opens(0) + toc_open());
    }
}

proof fn lemma_toc_closes_snoc(n: int)
    requires
        n >= 0,
    ensures
        toc_closes(n + 1) == toc_closes(n) + toc_close(),
    decreases n,
{
    if n > 0 {
        lemma_toc_closes_snoc(n - 1);
        assert(toc_closes(n + 1) =~= toc_closes(n) + toc_close());
    } else {
        assert(toc_closes(1) =~= toc_closes(0) + toc_close());
    }
}

/// An outline that jumps straight from level 1 to level 3 opens two nested
/// lists in one step, and the end of the document closes all three open
/// levels again.
pub proof fn lemma_toc_multilevel_jump(h1: HeadingV, h3: HeadingV)
    requires
        h1.level == 1,
        h3.level == 3,
    ensures
        toc_html(seq![h1, h3]) == toc_opens(1) + toc_item(h1) + toc_opens(2) + toc_item(h3)
            + toc_closes(3),
{
    let hs = seq![h1, h3];
    assert(toc_from(hs, 2, 3) == toc_closes(3));
    assert(toc_from(hs, 1, 1) == toc_opens(2) + toc_item(h3) + toc_closes(3));
    assert(toc_html(hs) == toc_opens(1) + toc_item(h1) + toc_from(hs, 1, 1));
    assert(toc_html(hs) =~= toc_opens(1) + toc_item(h1) + toc_opens(2) + toc_item(h3)
        + toc_closes(3));
}

/// Builds the nested-list TOC HTML for a finished outline.
pub fn to_html_toc(headings: &[Heading]) -> (r: String)
    ensures
        r@ == toc_html(heading_views(headings@)),
        headings@.len() == 0 ==> r@ == Seq::<char>::empty(),
{
    let ghost hs = heading_views(headings@);

    let mut result = String::new();
    let mut last_level: u8 = 0;
    let n = headings.len();
    let mut i: usize = 0;
    while i < n
        invariant
            n == headings@.len(),
            0 <= i <= n,
            hs == heading_views(headings@),
            hs.len() == n,
            0 <= last_level <= 6,
            i == 0 ==> last_level == 0,
            i > 0 ==> last_level as int == hs[i - 1].level,
            result@ + toc_from(hs, i as int, last_level as int) == toc_html(hs),
        decreases n - i,
    {
        let ghost snap = result@;
        let ghost l0 = last_level as int;
        let level = headings[i].level.as_number();
        proof {
            assert(hs[i as int] == headings@[i as int]@);
            assert(hs[i as int].level == level as int);
        }

        if level > last_level {
            while last_level < level
                invariant
                    l0 <= last_level <= level,
                    level <= 6,
                    result@ == snap + toc_opens(last_level - l0),
                decreases level - last_level,
            {
                result.append("\n<ul>\n");
                proof {
                    lemma_toc_opens_snoc(last_level - l0);
                    assert(result@ =~= snap + toc_opens(last_level + 1 - l0));
                }
                last_level = last_level + 1;
            }
            proof {
                assert(result@ == snap + toc_transition(level as int, l0));
            }
        } else {
            while last_level > level
                invariant
                    level <= last_level <= l0,
                    result@ == snap + toc_closes(l0 - last_level),
                decreases last_level,
            {
                result.append("</li>\n</ul>\n");
                proof {
                    lemma_toc_closes_snoc(l0 - last_level);
                    assert(result@ =~= snap + toc_closes(l0 - (last_level - 1)));
                }
                last_level = last_level - 1;
            }
            result.append("</li>\n");
            proof {
                assert(result@ =~= snap + toc_transition(level as int, l0));
            }
        }

        result.append("<li><a href=\"#");
        result.append(headings[i].anchor.as_str());
        result.append("\">");
        result.append(headings[i].title.as_str());
        result.append("</a>");

        proof {
            assert(result@ =~= snap + toc_transition(level as int, l0) + toc_item(hs[i as int]));
            assert(toc_from(hs, i as int, l0) == toc_transition(level as int, l0) + toc_item(
                hs[i as int],
            ) + toc_from(hs, i + 1, level as int));
            assert(result@ + toc_from(hs, i + 1, level as int) =~= snap + toc_from(
                hs,
                i as int,
                l0,
            ));
        }
        i = i + 1;
    }

    while last_level > 0
        invariant
            result@ + toc_closes(last_level as int) == toc_html(hs),
        decreases last_level,
    {
        result.append("</li>\n</ul>\n");
        proof {
            assert(toc_closes(last_level as int) == toc_close() + toc_closes(last_level - 1));
            assert(result@ + toc_closes(last_level - 1) =~= toc_html(hs));
        }
        last_level = last_level - 1;
    }

    proof {
        assert(result@ =~= toc_html(hs));
    }
    result
}

/// The title of the first heading in document order, if any.
pub fn first_title(headings: &[Heading]) -> (r: Option<String>)
    ensures
        headings@.len() == 0 ==> r is None,
        headings@.len() > 0 ==> (r matches Some(t) && t@ == headings@[0]@.title),
{
    if headings.len() == 0 {
        None
    } else {
        Some(headings[0].title.clone())
    }
}

} // verus!
