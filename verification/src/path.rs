//! Route path patterns: parsing a declaration string into segments, matching
//! a concrete request path against a pattern, and extracting the named and
//! wildcard captures.
//!
//! The mathematical model works on `Seq<char>`: a declaration is trimmed of
//! trailing slashes, split on `/`, and folded into a sequence of segments;
//! matching and capture extraction walk the pattern against the non-empty
//! tokens of the candidate path.

use vstd::prelude::*;

use crate::errors::Error;
use crate::errors::ServerError;
use crate::params::Params;
use crate::params::str_eq;

verus! {

/// The abstract form of one pattern segment.
pub enum SegView {
    /// Marks the conceptual root; what `/` parses to.
    Leader,
    /// A fixed path component that must be equal in the candidate.
    Literal(Seq<char>),
    /// A named parameter binding one candidate segment.
    Param(Seq<char>),
    /// A greedy capture of one or more candidate segments.
    Wildcard,
}

/// One parsed segment of a route declaration.
#[derive(Debug)]
pub enum RoutePart {
    Wildcard,
    PathComponent(String),
    Param(String),
    Leader,
}

impl View for RoutePart {
    type V = SegView;

    open spec fn view(&self) -> SegView {
        match self {
            RoutePart::Wildcard => SegView::Wildcard,
            RoutePart::PathComponent(s) => SegView::Literal(s@),
            RoutePart::Param(s) => SegView::Param(s@),
            RoutePart::Leader => SegView::Leader,
        }
    }
}

/// A parsed route pattern: an ordered sequence of segments.
#[derive(Debug)]
pub struct Path(pub(crate) Vec<RoutePart>);

impl View for Path {
    type V = Seq<SegView>;

    closed spec fn view(&self) -> Seq<SegView> {
        self.0@.map_values(|p: RoutePart| p@)
    }
}

// ---------------------------------------------------------------------------
// Spec model: strings
// ---------------------------------------------------------------------------

/// Drop every trailing `/` from `s`.
pub open spec fn trim_slashes(s: Seq<char>) -> Seq<char>
    decreases s.len(),
{
    if s.len() > 0 && s.last() == '/' {
        trim_slashes(s.drop_last())
    } else {
        s
    }
}

/// Index of the first `/` in `s`, or `s.len()` if there is none.
pub open spec fn first_slash(s: Seq<char>) -> nat
    decreases s.len(),
{
    if s.len() == 0 {
        0
    } else if s.first() == '/' {
        0
    } else {
        1 + first_slash(s.drop_first())
    }
}

/// Split `s` on `/`; the separators are dropped and empty tokens are kept.
pub open spec fn split_slash(s: Seq<char>) -> Seq<Seq<char>>
    decreases s.len(),
{
    let i = first_slash(s);
    if i >= s.len() {
        seq![s]
    } else {
        seq![s.take(i as int)] + split_slash(s.skip(i as int + 1))
    }
}

/// Drop every leading `:` from a token; what remains is a parameter's name.
pub open spec fn strip_colons(s: Seq<char>) -> Seq<char>
    decreases s.len(),
{
    if s.len() > 0 && s.first() == ':' {
        strip_colons(s.drop_first())
    } else {
        s
    }
}

/// Join tokens with `/` between them.
pub open spec fn join_slash(toks: Seq<Seq<char>>) -> Seq<char>
    decreases toks.len(),
{
    if toks.len() == 0 {
        Seq::empty()
    } else if toks.len() == 1 {
        toks.first()
    } else {
        toks.first() + seq!['/'] + join_slash(toks.drop_first())
    }
}

/// Keep only the non-empty tokens.
pub open spec fn nonempty(toks: Seq<Seq<char>>) -> Seq<Seq<char>>
    decreases toks.len(),
{
    if toks.len() == 0 {
        Seq::<Seq<char>>::empty()
    } else if toks.first().len() > 0 {
        seq![toks.first()] + nonempty(toks.drop_first())
    } else {
        nonempty(toks.drop_first())
    }
}

/// The segments of a candidate path: trailing slashes are insignificant and
/// repeated slashes are separator noise, so both are dropped.
pub open spec fn cand_tokens(s: Seq<char>) -> Seq<Seq<char>> {
    nonempty(split_slash(trim_slashes(s)))
}

// ---------------------------------------------------------------------------
// Spec model: parsing a declaration
// ---------------------------------------------------------------------------

/// Why a route declaration is rejected.
#[derive(Clone, Copy, PartialEq, Eq, Structural, Debug)]
pub enum ParseFail {
    /// More than one wildcard in one pattern.
    DuplicateWildcard,
    /// A parameter immediately (up to empty tokens) after a wildcard.
    ParamAfterWildcard,
}

/// One pass over the declaration's tokens. `seen_wc` records whether any
/// wildcard was emitted; `just_wc` is cleared only by a literal and guards
/// against a parameter whose left boundary would be ambiguous.
pub open spec fn parse_tokens(
    toks: Seq<Seq<char>>,
    acc: Seq<SegView>,
    seen_wc: bool,
    just_wc: bool,
) -> Result<Seq<SegView>, ParseFail>
    decreases toks.len(),
{
    if toks.len() == 0 {
        Ok(acc)
    } else {
        let t = toks.first();
        let rest = toks.drop_first();
        if t.len() == 0 {
            parse_tokens(rest, acc, seen_wc, just_wc)
        } else if t.first() == ':' {
            if just_wc {
                Err(ParseFail::ParamAfterWildcard)
            } else {
                parse_tokens(rest, acc.push(SegView::Param(strip_colons(t))), seen_wc, just_wc)
            }
        } else if t.len() == 1 && t.first() == '*' {
            if seen_wc {
                Err(ParseFail::DuplicateWildcard)
            } else {
                parse_tokens(rest, acc.push(SegView::Wildcard), true, true)
            }
        } else {
            parse_tokens(rest, acc.push(SegView::Literal(t)), seen_wc, false)
        }
    }
}

/// What a declaration parses to. A declaration with no `/` left after
/// trimming is the root pattern.
pub open spec fn parse_spec(s: Seq<char>) -> Result<Seq<SegView>, ParseFail> {
    let t = trim_slashes(s);
    if !t.contains('/') {
        Ok(seq![SegView::Leader])
    } else {
        parse_tokens(split_slash(t), seq![SegView::Leader], false, false)
    }
}

/// The message carried by the `ServerError` for each way parsing can fail.
pub open spec fn fail_message(k: ParseFail) -> Seq<char> {
    match k {
        ParseFail::DuplicateWildcard => "no more than one wildcard may be used in a path"@,
        ParseFail::ParamAfterWildcard => "params may not immediately follow wildcards due to ambiguity"@,
    }
}

// ---------------------------------------------------------------------------
// Spec model: matching
// ---------------------------------------------------------------------------

/// Does the pattern match the candidate tokens? A literal must be equal, a
/// parameter consumes any one token, and a wildcard consumes one or more
/// tokens greedily until the pattern's next literal is equal to the token at
/// hand. The root pattern matches only the empty token list.
pub open spec fn match_segs(pat: Seq<SegView>, toks: Seq<Seq<char>>) -> bool
    decreases pat.len(), toks.len(),
{
    if pat.len() == 0 {
        toks.len() == 0
    } else {
        match pat.first() {
            SegView::Leader => match_segs(pat.drop_first(), toks),
            SegView::Literal(l) => toks.len() > 0 && toks.first() == l && match_segs(
                pat.drop_first(),
                toks.drop_first(),
            ),
            SegView::Param(_) => toks.len() > 0 && match_segs(pat.drop_first(), toks.drop_first()),
            SegView::Wildcard => toks.len() > 0 && wild_match(pat.drop_first(), toks.drop_first()),
        }
    }
}

/// Matching in wildcard mode: the wildcard has consumed at least one token
/// already; it keeps consuming until the next pattern segment is a literal
/// equal to the current token, at which point ordinary matching resumes.
pub open spec fn wild_match(rest: Seq<SegView>, toks: Seq<Seq<char>>) -> bool
    decreases rest.len(), toks.len(),
{
    if rest.len() == 0 {
        true
    } else if (rest.first() matches SegView::Literal(l)) && toks.len() > 0 && toks.first()
        == rest.first()->Literal_0 {
        match_segs(rest.drop_first(), toks.drop_first())
    } else if toks.len() > 0 {
        wild_match(rest, toks.drop_first())
    } else {
        false
    }
}

/// Pattern `pat` matches candidate path `s`.
pub open spec fn match_spec(pat: Seq<SegView>, s: Seq<char>) -> bool {
    match_segs(pat, cand_tokens(s))
}

// ---------------------------------------------------------------------------
// Spec model: capture extraction
// ---------------------------------------------------------------------------

/// The reserved parameter name under which a wildcard's capture is stored.
pub open spec fn star_key() -> Seq<char> {
    seq!['*']
}

/// The name-to-value bindings produced by walking `pat` against `toks`,
/// starting from `acc`. Only meaningful when `match_segs(pat, toks)` holds.
pub open spec fn bind_segs(
    pat: Seq<SegView>,
    toks: Seq<Seq<char>>,
    acc: Map<Seq<char>, Seq<char>>,
) -> Map<Seq<char>, Seq<char>>
    decreases pat.len(), toks.len(),
{
    if pat.len() == 0 {
        acc
    } else {
        match pat.first() {
            SegView::Leader => bind_segs(pat.drop_first(), toks, acc),
            SegView::Literal(_) => if toks.len() > 0 {
                bind_segs(pat.drop_first(), toks.drop_first(), acc)
            } else {
                acc
            },
            SegView::Param(p) => if toks.len() > 0 {
                bind_segs(pat.drop_first(), toks.drop_first(), acc.insert(p, toks.first()))
            } else {
                acc
            },
            SegView::Wildcard => if toks.len() > 0 {
                wild_bind(pat.drop_first(), toks.drop_first(), acc, seq![toks.first()])
            } else {
                acc
            },
        }
    }
}

/// Extraction in wildcard mode: `wacc` accumulates the tokens the wildcard
/// has consumed; at the greedy boundary they are joined with `/` and stored
/// under the reserved `*` key.
pub open spec fn wild_bind(
    rest: Seq<SegView>,
    toks: Seq<Seq<char>>,
    acc: Map<Seq<char>, Seq<char>>,
    wacc: Seq<Seq<char>>,
) -> Map<Seq<char>, Seq<char>>
    decreases rest.len(), toks.len(),
{
    if rest.len() == 0 {
        acc.insert(star_key(), join_slash(wacc + toks))
    } else if (rest.first() matches SegView::Literal(l)) && toks.len() > 0 && toks.first()
        == rest.first()->Literal_0 {
        bind_segs(rest.drop_first(), toks.drop_first(), acc.insert(star_key(), join_slash(wacc)))
    } else if toks.len() > 0 {
        wild_bind(rest, toks.drop_first(), acc, wacc.push(toks.first()))
    } else {
        acc
    }
}

/// The bindings extracted from candidate path `s` by pattern `pat`.
pub open spec fn bind_spec(pat: Seq<SegView>, s: Seq<char>) -> Map<Seq<char>, Seq<char>> {
    bind_segs(pat, cand_tokens(s), Map::empty())
}

// ---------------------------------------------------------------------------
// Spec model: rendering
// ---------------------------------------------------------------------------

/// The canonical text of one segment.
pub open spec fn seg_text(g: SegView) -> Seq<char> {
    match g {
        SegView::Leader => Seq::empty(),
        SegView::Literal(l) => l,
        SegView::Param(p) => seq![':'] + p,
        SegView::Wildcard => seq!['*'],
    }
}

/// The canonical rendering of a pattern: its segments joined with `/`; a
/// pattern of fewer than two segments is the root and renders as `/`.
pub open spec fn render_spec(pat: Seq<SegView>) -> Seq<char> {
    if pat.len() < 2 {
        seq!['/']
    } else {
        join_slash(pat.map_values(|g: SegView| seg_text(g)))
    }
}

/// The names of the pattern's parameters, in declaration order.
pub open spec fn param_names(pat: Seq<SegView>) -> Seq<Seq<char>>
    decreases pat.len(),
{
    if pat.len() == 0 {
        Seq::<Seq<char>>::empty()
    } else if pat.first() matches SegView::Param(p) {
        seq![pat.first()->Param_0] + param_names(pat.drop_first())
    } else {
        param_names(pat.drop_first())
    }
}

// ---------------------------------------------------------------------------
// Lemmas about the string helpers
// ---------------------------------------------------------------------------

proof fn lemma_first_slash_clean(s: Seq<char>)
    requires
        forall|j: int| 0 <= j < s.len() ==> s[j] != '/',
    ensures
        first_slash(s) == s.len(),
    decreases s.len(),
{
    if s.len() > 0 {
        assert(forall|j: int| 0 <= j < s.drop_first().len() ==> s.drop_first()[j] == s[j + 1]);
        lemma_first_slash_clean(s.drop_first());
    }
}

proof fn lemma_first_slash_at(s: Seq<char>, k: int)
    requires
        0 <= k < s.len(),
        s[k] == '/',
        forall|j: int| 0 <= j < k ==> s[j] != '/',
    ensures
        first_slash(s) == k,
    decreases k,
{
    if k > 0 {
        assert(forall|j: int| 0 <= j < s.drop_first().len() ==> s.drop_first()[j] == s[j + 1]);
        lemma_first_slash_at(s.drop_first(), k - 1);
    }
}

// ---------------------------------------------------------------------------
// Executable string helpers
// ---------------------------------------------------------------------------

/// Drop every trailing `/` from `s`.
fn trim_trailing<'a>(s: &'a str) -> (r: &'a str)
    ensures
        r@ == trim_slashes(s@),
{
    let len = s.unicode_len();
    let mut end = len;
    proof {
        assert(s@.take(len as int) =~= s@);
    }
    while end > 0 && s.get_char(end - 1) == '/'
        invariant
            end <= len,
            len == s@.len(),
            trim_slashes(s@) == trim_slashes(s@.take(end as int)),
        decreases end,
    {
        proof {
            assert(s@.take(end as int).last() == s@[end - 1]);
            assert(s@.take(end as int).drop_last() =~= s@.take(end - 1));
        }
        end = end - 1;
    }
    proof {
        if end > 0 {
            assert(s@.take(end as int).last() == s@[end - 1]);
        }
        assert(trim_slashes(s@.take(end as int)) == s@.take(end as int));
    }
    s.substring_char(0, end)
}

/// Does `s` contain a `/` anywhere?
fn contains_slash(s: &str) -> (b: bool)
    ensures
        b == s@.contains('/'),
{
    let len = s.unicode_len();
    let mut i: usize = 0;
    while i < len
        invariant
            i <= len,
            len == s@.len(),
            forall|j: int| 0 <= j < i ==> s@[j] != '/',
        decreases len - i,
    {
        if s.get_char(i) == '/' {
            return true;
        }
        i = i + 1;
    }
    false
}

/// Split `s` on `/`, keeping empty tokens.
fn split_tokens(s: &str) -> (r: Vec<String>)
    ensures
        r@.map_values(|t: String| t@) == split_slash(s@),
{
    let len = s.unicode_len();
    let mut r: Vec<String> = Vec::new();
    let mut start: usize = 0;
    let mut i: usize = 0;
    proof {
        assert(s@.skip(0) =~= s@);
        assert(r@.map_values(|t: String| t@) + split_slash(s@) =~= split_slash(s@));
    }
    while i < len
        invariant
            start <= i <= len,
            len == s@.len(),
            forall|j: int| start <= j < i ==> s@[j] != '/',
            split_slash(s@) == r@.map_values(|t: String| t@) + split_slash(
                s@.skip(start as int),
            ),
        decreases len - i,
    {
        if s.get_char(i) == '/' {
            let tok = s.substring_char(start, i).to_owned();
            let ghost prev = r@.map_values(|t: String| t@);
            r.push(tok);
            proof {
                let rem = s@.skip(start as int);
                assert(forall|j: int|
                    0 <= j < rem.len() ==> rem[j] == s@[start + j]);
                lemma_first_slash_at(rem, i - start);
                assert(rem.take(i - start) =~= tok@);
                assert(rem.skip(i - start + 1) =~= s@.skip(i + 1));
                assert(split_slash(rem) == seq![tok@] + split_slash(s@.skip(i + 1)));
                assert(r@.map_values(|t: String| t@) =~= prev.push(tok@));
                assert(prev + (seq![tok@] + split_slash(s@.skip(i + 1))) =~= prev.push(tok@)
                    + split_slash(s@.skip(i + 1)));
            }
            start = i + 1;
        }
        i = i + 1;
    }
    let tok = s.substring_char(start, len).to_owned();
    let ghost prev = r@.map_values(|t: String| t@);
    r.push(tok);
    proof {
        let rem = s@.skip(start as int);
        assert(forall|j: int| 0 <= j < rem.len() ==> rem[j] == s@[start + j]);
        lemma_first_slash_clean(rem);
        assert(rem =~= tok@);
        assert(split_slash(rem) == seq![tok@]);
        assert(r@.map_values(|t: String| t@) =~= prev.push(tok@));
        assert(prev + seq![tok@] =~= prev.push(tok@));
    }
    r
}

/// The name of a parameter token: the token with its leading colons dropped.
fn strip_param(t: &str) -> (r: String)
    ensures
        r@ == strip_colons(t@),
{
    let len = t.unicode_len();
    let mut j: usize = 0;
    proof {
        assert(t@.skip(0) =~= t@);
    }
    while j < len && t.get_char(j) == ':'
        invariant
            j <= len,
            len == t@.len(),
            strip_colons(t@) == strip_colons(t@.skip(j as int)),
        decreases len - j,
    {
        proof {
            assert(t@.skip(j as int).first() == t@[j as int]);
            assert(t@.skip(j as int).drop_first() =~= t@.skip(j + 1));
        }
        j = j + 1;
    }
    proof {
        if j < len {
            assert(t@.skip(j as int).first() == t@[j as int]);
        }
        assert(strip_colons(t@.skip(j as int)) == t@.skip(j as int));
    }
    t.substring_char(j, len).to_owned()
}

// ---------------------------------------------------------------------------
// Path: construction
// ---------------------------------------------------------------------------

impl Path {
    /// Parse a route declaration. Trailing slashes are insignificant, empty
    /// tokens from repeated slashes are dropped, `:name` tokens declare
    /// parameters and `*` a wildcard. Fails exactly when a second wildcard
    /// appears or a parameter follows a wildcard with no literal between.
    pub fn new(path: String) -> (r: Result<Self, ServerError>)
        ensures
            match r {
                Ok(p) => parse_spec(path@) matches Ok(segs) && p@ == segs,
                Err(e) => parse_spec(path@) matches Err(k) && e@ == fail_message(k),
            },
    {
        let trimmed = trim_trailing(path.as_str());
        if !contains_slash(trimmed) {
            let mut parts: Vec<RoutePart> = Vec::new();
            parts.push(RoutePart::Leader);
            let p = Path(parts);
            proof {
                assert(p@ =~= seq![SegView::Leader]);
            }
            return Ok(p);
        }
        let toks = split_tokens(trimmed);
        let ghost tokviews = toks@.map_values(|t: String| t@);
        let mut parts: Vec<RoutePart> = Vec::new();
        parts.push(RoutePart::Leader);
        proof {
            assert(parts@.map_values(|p: RoutePart| p@) =~= seq![SegView::Leader]);
        }
        let mut seen_wc = false;
        let mut just_wc = false;
        let mut i: usize = 0;
        proof {
            assert(tokviews.skip(0) =~= tokviews);
        }
        while i < toks.len()
            invariant
                i <= toks.len(),
                tokviews == toks@.map_values(|t: String| t@),
                tokviews == split_slash(trim_slashes(path@)),
                trim_slashes(path@).contains('/'),
                parse_tokens(tokviews, seq![SegView::Leader], false, false) == parse_tokens(
                    tokviews.skip(i as int),
                    parts@.map_values(|p: RoutePart| p@),
                    seen_wc,
                    just_wc,
                ),
            decreases toks.len() - i,
        {
            let ghost rest = tokviews.skip(i as int);
            let ghost accv = parts@.map_values(|p: RoutePart| p@);
            proof {
                assert(rest.first() == tokviews[i as int]);
                assert(rest.drop_first() =~= tokviews.skip(i + 1));
            }
            let t = toks[i].as_str();
            let tlen = t.unicode_len();
            if tlen == 0 {
                // empty token: separator noise, dropped
            } else if t.get_char(0) == ':' {
                if just_wc {
                    return Err(ServerError(
                        "params may not immediately follow wildcards due to ambiguity".to_owned(),
                    ));
                }
                let name = strip_param(t);
                parts.push(RoutePart::Param(name));
                proof {
                    assert(parts@.map_values(|p: RoutePart| p@) =~= accv.push(
                        SegView::Param(strip_colons(rest.first())),
                    ));
                }
            } else if tlen == 1 && t.get_char(0) == '*' {
                if seen_wc {
                    return Err(ServerError(
                        "no more than one wildcard may be used in a path".to_owned(),
                    ));
                }
                parts.push(RoutePart::Wildcard);
                seen_wc = true;
                just_wc = true;
                proof {
                    assert(parts@.map_values(|p: RoutePart| p@) =~= accv.push(SegView::Wildcard));
                }
            } else {
                let lit = toks[i].clone();
                parts.push(RoutePart::PathComponent(lit));
                just_wc = false;
                proof {
                    assert(parts@.map_values(|p: RoutePart| p@) =~= accv.push(
                        SegView::Literal(rest.first()),
                    ));
                }
            }
            i = i + 1;
        }
        proof {
            assert(tokviews.skip(i as int) =~= Seq::<Seq<char>>::empty());
        }
        Ok(Path(parts))
    }
}

// ---------------------------------------------------------------------------
// Matching
// ---------------------------------------------------------------------------

/// The non-empty tokens of a candidate path, as owned strings.
fn path_tokens(s: &str) -> (r: Vec<String>)
    ensures
        r@.map_values(|t: String| t@) == cand_tokens(s@),
{
    let trimmed = trim_trailing(s);
    let toks = split_tokens(trimmed);
    let ghost tokviews = toks@.map_values(|t: String| t@);
    let mut r: Vec<String> = Vec::new();
    let mut i: usize = 0;
    proof {
        assert(tokviews.skip(0) =~= tokviews);
        assert(r@.map_values(|t: String| t@) + nonempty(tokviews) =~= nonempty(tokviews));
    }
    while i < toks.len()
        invariant
            i <= toks.len(),
            tokviews == toks@.map_values(|t: String| t@),
            cand_tokens(s@) == nonempty(tokviews),
            nonempty(tokviews) == r@.map_values(|t: String| t@) + nonempty(
                tokviews.skip(i as int),
            ),
        decreases toks.len() - i,
    {
        let ghost rest = tokviews.skip(i as int);
        let ghost prev = r@.map_values(|t: String| t@);
        proof {
            assert(rest.first() == tokviews[i as int]);
            assert(rest.drop_first() =~= tokviews.skip(i + 1));
        }
        if toks[i].as_str().unicode_len() > 0 {
            r.push(toks[i].clone());
            proof {
                assert(r@.map_values(|t: String| t@) =~= prev.push(rest.first()));
                assert(prev + (seq![rest.first()] + nonempty(tokviews.skip(i + 1)))
                    =~= prev.push(rest.first()) + nonempty(tokviews.skip(i + 1)));
            }
        }
        i = i + 1;
    }
    proof {
        assert(tokviews.skip(i as int) =~= Seq::<Seq<char>>::empty());
        assert(r@.map_values(|t: String| t@) + nonempty(tokviews.skip(i as int))
            =~= r@.map_values(|t: String| t@));
    }
    r
}

/// Walk the pattern from `pi` against the tokens from `ti` in ordinary mode.
fn match_at(parts: &Vec<RoutePart>, pi: usize, toks: &Vec<String>, ti: usize) -> (b: bool)
    requires
        pi <= parts@.len(),
        ti <= toks@.len(),
    ensures
        b == match_segs(
            parts@.map_values(|p: RoutePart| p@).skip(pi as int),
            toks@.map_values(|t: String| t@).skip(ti as int),
        ),
    decreases parts@.len() - pi, toks@.len() - ti,
{
    let ghost pat = parts@.map_values(|p: RoutePart| p@).skip(pi as int);
    let ghost tv = toks@.map_values(|t: String| t@).skip(ti as int);
    if pi == parts.len() {
        proof {
            assert(pat.len() == 0);
        }
        return ti == toks.len();
    }
    proof {
        assert(pat.first() == parts@[pi as int]@);
        assert(pat.drop_first() =~= parts@.map_values(|p: RoutePart| p@).skip(pi + 1));
        if ti < toks.len() {
            assert(tv.first() == toks@[ti as int]@);
            assert(tv.drop_first() =~= toks@.map_values(|t: String| t@).skip(ti + 1));
        }
    }
    match &parts[pi] {
        RoutePart::Leader => match_at(parts, pi + 1, toks, ti),
        RoutePart::PathComponent(l) => {
            if ti == toks.len() {
                false
            } else if str_eq(l.as_str(), toks[ti].as_str()) {
                match_at(parts, pi + 1, toks, ti + 1)
            } else {
                false
            }
        },
        RoutePart::Param(_) => {
            if ti == toks.len() {
                false
            } else {
                match_at(parts, pi + 1, toks, ti + 1)
            }
        },
        RoutePart::Wildcard => {
            if ti == toks.len() {
                false
            } else {
                wild_at(parts, pi + 1, toks, ti + 1)
            }
        },
    }
}

/// Walk the pattern from `pi` against the tokens from `ti` in wildcard mode:
/// tokens are consumed until the pattern's next literal equals the token at
/// hand, where ordinary matching resumes.
fn wild_at(parts: &Vec<RoutePart>, pi: usize, toks: &Vec<String>, ti: usize) -> (b: bool)
    requires
        pi <= parts@.len(),
        ti <= toks@.len(),
    ensures
        b == wild_match(
            parts@.map_values(|p: RoutePart| p@).skip(pi as int),
            toks@.map_values(|t: String| t@).skip(ti as int),
        ),
    decreases parts@.len() - pi, toks@.len() - ti,
{
    let ghost rest = parts@.map_values(|p: RoutePart| p@).skip(pi as int);
    let ghost tv = toks@.map_values(|t: String| t@).skip(ti as int);
    if pi == parts.len() {
        proof {
            assert(rest.len() == 0);
        }
        return true;
    }
    proof {
        assert(rest.first() == parts@[pi as int]@);
        assert(rest.drop_first() =~= parts@.map_values(|p: RoutePart| p@).skip(pi + 1));
        if ti < toks.len() {
            assert(tv.first() == toks@[ti as int]@);
            assert(tv.drop_first() =~= toks@.map_values(|t: String| t@).skip(ti + 1));
        }
    }
    if ti == toks.len() {
        return false;
    }
    if let RoutePart::PathComponent(l) = &parts[pi] {
        if str_eq(l.as_str(), toks[ti].as_str()) {
            return match_at(parts, pi + 1, toks, ti + 1);
        }
    }
    wild_at(parts, pi, toks, ti + 1)
}

impl Path {
    /// Does this pattern match the candidate path `s`? Fails exactly when the
    /// candidate itself cannot be parsed as a pattern (for instance a path
    /// whose tokens would declare two wildcards).
    pub fn matches(&self, s: String) -> (r: Result<bool, Error>)
        ensures
            match r {
                Ok(b) => parse_spec(s@) is Ok && b == match_spec(self@, s@),
                Err(e) => parse_spec(s@) matches Err(k) && e matches Error::InternalServerError(m)
                    && m@ == fail_message(k),
            },
    {
        match Path::new(s.clone()) {
            Err(e) => Err(Error::InternalServerError(e.0)),
            Ok(_) => {
                let toks = path_tokens(s.as_str());
                let b = match_at(&self.0, 0, &toks, 0);
                proof {
                    assert(parts_view(self.0@).skip(0) =~= parts_view(self.0@));
                    assert(toks@.map_values(|t: String| t@).skip(0) =~= cand_tokens(s@));
                }
                Ok(b)
            },
        }
    }
}

/// The segment views of a part list.
pub(crate) open spec fn parts_view(parts: Seq<RoutePart>) -> Seq<SegView> {
    parts.map_values(|p: RoutePart| p@)
}

// ---------------------------------------------------------------------------
// Capture extraction
// ---------------------------------------------------------------------------

proof fn lemma_join_push(s: Seq<Seq<char>>, x: Seq<char>)
    ensures
        join_slash(s.push(x)) == if s.len() == 0 {
            x
        } else {
            join_slash(s) + seq!['/'] + x
        },
    decreases s.len(),
{
    if s.len() == 0 {
        assert(s.push(x).len() == 1);
        assert(s.push(x).first() == x);
    } else {
        assert(s.push(x).first() == s.first());
        assert(s.push(x).drop_first() =~= s.drop_first().push(x));
        lemma_join_push(s.drop_first(), x);
        if s.len() == 1 {
            assert(s.drop_first().len() == 0);
        } else {
            assert(s.first() + seq!['/'] + (join_slash(s.drop_first()) + seq!['/'] + x) =~= (
            s.first() + seq!['/'] + join_slash(s.drop_first())) + seq!['/'] + x);
        }
    }
}

/// Join tokens into one string with `/` between them.
fn join_tokens(toks: &Vec<String>) -> (r: String)
    ensures
        r@ == join_slash(toks@.map_values(|t: String| t@)),
{
    let ghost views = toks@.map_values(|t: String| t@);
    let mut r = String::new();
    let mut i: usize = 0;
    proof {
        reveal_strlit("/");
        assert(views.take(0) =~= Seq::<Seq<char>>::empty());
    }
    while i < toks.len()
        invariant
            i <= toks.len(),
            views == toks@.map_values(|t: String| t@),
            r@ == join_slash(views.take(i as int)),
        decreases toks.len() - i,
    {
        if i > 0 {
            r.append("/");
        }
        r.append(toks[i].as_str());
        proof {
            reveal_strlit("/");
            assert("/"@ =~= seq!['/']);
            lemma_join_push(views.take(i as int), views[i as int]);
            assert(views.take(i as int).push(views[i as int]) =~= views.take(i + 1));
        }
        i = i + 1;
    }
    proof {
        assert(views.take(i as int) =~= views);
    }
    r
}

/// Walk the pattern from `pi` against the tokens from `ti` in ordinary mode,
/// adding each parameter's binding to `params`.
fn bind_at(parts: &Vec<RoutePart>, pi: usize, toks: &Vec<String>, ti: usize, params: &mut Params)
    requires
        pi <= parts@.len(),
        ti <= toks@.len(),
    ensures
        final(params)@ == bind_segs(
            parts_view(parts@).skip(pi as int),
            toks@.map_values(|t: String| t@).skip(ti as int),
            old(params)@,
        ),
    decreases parts@.len() - pi, toks@.len() - ti,
{
    let ghost pat = parts_view(parts@).skip(pi as int);
    let ghost tv = toks@.map_values(|t: String| t@).skip(ti as int);
    if pi == parts.len() {
        proof {
            assert(pat.len() == 0);
        }
        return ;
    }
    proof {
        assert(pat.first() == parts@[pi as int]@);
        assert(pat.drop_first() =~= parts_view(parts@).skip(pi + 1));
        if ti < toks.len() {
            assert(tv.first() == toks@[ti as int]@);
            assert(tv.drop_first() =~= toks@.map_values(|t: String| t@).skip(ti + 1));
        }
    }
    match &parts[pi] {
        RoutePart::Leader => bind_at(parts, pi + 1, toks, ti, params),
        RoutePart::PathComponent(_) => {
            if ti < toks.len() {
                bind_at(parts, pi + 1, toks, ti + 1, params);
            }
        },
        RoutePart::Param(p) => {
            if ti < toks.len() {
                params.insert(p.clone(), toks[ti].clone());
                bind_at(parts, pi + 1, toks, ti + 1, params);
            }
        },
        RoutePart::Wildcard => {
            if ti < toks.len() {
                let mut wacc: Vec<String> = Vec::new();
                wacc.push(toks[ti].clone());
                proof {
                    assert(wacc@.map_values(|t: String| t@) =~= seq![tv.first()]);
                }
                wild_bind_at(parts, pi + 1, toks, ti + 1, params, wacc);
            }
        },
    }
}

/// Walk the pattern from `pi` in wildcard mode: `wacc` holds the tokens the
/// wildcard has consumed so far; at the greedy boundary (or the pattern's
/// end) they are joined and stored under the reserved `*` key.
fn wild_bind_at(
    parts: &Vec<RoutePart>,
    pi: usize,
    toks: &Vec<String>,
    ti: usize,
    params: &mut Params,
    wacc: Vec<String>,
)
    requires
        pi <= parts@.len(),
        ti <= toks@.len(),
    ensures
        final(params)@ == wild_bind(
            parts_view(parts@).skip(pi as int),
            toks@.map_values(|t: String| t@).skip(ti as int),
            old(params)@,
            wacc@.map_values(|t: String| t@),
        ),
    decreases parts@.len() - pi, toks@.len() - ti,
{
    let ghost rest = parts_view(parts@).skip(pi as int);
    let ghost tv = toks@.map_values(|t: String| t@).skip(ti as int);
    let ghost wv = wacc@.map_values(|t: String| t@);
    if pi == parts.len() {
        // the wildcard runs to the end of the pattern and consumes every
        // remaining token
        let mut w = wacc;
        let mut k = ti;
        while k < toks.len()
            invariant
                ti <= k <= toks@.len(),
                tv == toks@.map_values(|t: String| t@).skip(ti as int),
                w@.map_values(|t: String| t@) == wv + toks@.map_values(|t: String| t@).subrange(
                    ti as int,
                    k as int,
                ),
            decreases toks@.len() - k,
        {
            let ghost prevw = w@.map_values(|t: String| t@);
            w.push(toks[k].clone());
            proof {
                assert(w@.map_values(|t: String| t@) =~= prevw.push(toks@[k as int]@));
                assert(prevw.push(toks@[k as int]@) =~= wv + toks@.map_values(
                    |t: String| t@,
                ).subrange(ti as int, k + 1));
            }
            k = k + 1;
        }
        proof {
            assert(toks@.map_values(|t: String| t@).subrange(
                ti as int,
                toks@.len() as int,
            ) =~= tv);
        }
        let joined = join_tokens(&w);
        let star = star_string();
        params.insert(star, joined);
        proof {
            assert(rest.len() == 0);
        }
        return ;
    }
    proof {
        assert(rest.first() == parts@[pi as int]@);
        assert(rest.drop_first() =~= parts_view(parts@).skip(pi + 1));
        if ti < toks.len() {
            assert(tv.first() == toks@[ti as int]@);
            assert(tv.drop_first() =~= toks@.map_values(|t: String| t@).skip(ti + 1));
        }
    }
    if ti == toks.len() {
        return ;
    }
    if let RoutePart::PathComponent(l) = &parts[pi] {
        if str_eq(l.as_str(), toks[ti].as_str()) {
            let joined = join_tokens(&wacc);
            let star = star_string();
            params.insert(star, joined);
            bind_at(parts, pi + 1, toks, ti + 1, params);
            return ;
        }
    }
    let mut w = wacc;
    w.push(toks[ti].clone());
    proof {
        assert(w@.map_values(|t: String| t@) =~= wv.push(tv.first()));
    }
    wild_bind_at(parts, pi, toks, ti + 1, params, w);
}

/// The reserved `*` key as an owned string.
fn star_string() -> (r: String)
    ensures
        r@ == star_key(),
{
    proof {
        reveal_strlit("*");
        assert("*"@ =~= seq!['*']);
    }
    "*".to_owned()
}

impl Path {
    /// Extract the parameter and wildcard bindings of candidate path
    /// `provided`. Fails exactly when the candidate does not match this
    /// pattern (an unparseable candidate matches nothing).
    pub fn extract(&self, provided: String) -> (r: Result<Params, ServerError>)
        ensures
            match r {
                Ok(ps) => parse_spec(provided@) is Ok && match_spec(self@, provided@) && ps@
                    == bind_spec(self@, provided@),
                Err(e) => !(parse_spec(provided@) is Ok && match_spec(self@, provided@)) && e@
                    == "route does not match"@,
            },
    {
        let matched = self.matches(provided.clone());
        match matched {
            Err(_) => Err(ServerError("route does not match".to_owned())),
            Ok(false) => Err(ServerError("route does not match".to_owned())),
            Ok(true) => {
                let toks = path_tokens(provided.as_str());
                let mut params = Params::new();
                bind_at(&self.0, 0, &toks, 0, &mut params);
                proof {
                    assert(parts_view(self.0@).skip(0) =~= parts_view(self.0@));
                    assert(toks@.map_values(|t: String| t@).skip(0) =~= cand_tokens(provided@));
                }
                Ok(params)
            },
        }
    }

    /// The names of this pattern's parameters, in declaration order.
    pub fn params(&self) -> (r: Vec<String>)
        ensures
            r@.map_values(|t: String| t@) == param_names(self@),
    {
        let mut r: Vec<String> = Vec::new();
        let mut i: usize = 0;
        proof {
            assert(parts_view(self.0@).skip(0) =~= parts_view(self.0@));
            assert(r@.map_values(|t: String| t@) + param_names(parts_view(self.0@))
                =~= param_names(parts_view(self.0@)));
        }
        while i < self.0.len()
            invariant
                i <= self.0@.len(),
                param_names(parts_view(self.0@)) == r@.map_values(|t: String| t@) + param_names(
                    parts_view(self.0@).skip(i as int),
                ),
            decreases self.0@.len() - i,
        {
            let ghost rest = parts_view(self.0@).skip(i as int);
            let ghost prev = r@.map_values(|t: String| t@);
            proof {
                assert(rest.first() == self.0@[i as int]@);
                assert(rest.drop_first() =~= parts_view(self.0@).skip(i + 1));
            }
            if let RoutePart::Param(p) = &self.0[i] {
                r.push(p.clone());
                proof {
                    assert(r@.map_values(|t: String| t@) =~= prev.push(p@));
                    assert(prev + (seq![p@] + param_names(parts_view(self.0@).skip(i + 1)))
                        =~= prev.push(p@) + param_names(parts_view(self.0@).skip(i + 1)));
                }
            }
            i = i + 1;
        }
        proof {
            assert(parts_view(self.0@).skip(i as int) =~= Seq::<SegView>::empty());
            assert(r@.map_values(|t: String| t@) + param_names(Seq::<SegView>::empty())
                =~= r@.map_values(|t: String| t@));
        }
        r
    }

    /// The canonical string form of this pattern: segments joined with `/`,
    /// a parameter rendered as `:name` and a wildcard as `*`; the root
    /// pattern renders as `/`.
    pub fn render(&self) -> (r: String)
        ensures
            r@ == render_spec(self@),
    {
        if self.0.len() < 2 {
            proof {
                reveal_strlit("/");
                assert("/"@ =~= seq!['/']);
            }
            return "/".to_owned();
        }
        let mut pieces: Vec<String> = Vec::new();
        let mut i: usize = 0;
        proof {
            assert(pieces@.map_values(|t: String| t@) =~= parts_view(self.0@).take(
                0,
            ).map_values(|g: SegView| seg_text(g)));
        }
        while i < self.0.len()
            invariant
                i <= self.0@.len(),
                pieces@.map_values(|t: String| t@) == parts_view(self.0@).take(
                    i as int,
                ).map_values(|g: SegView| seg_text(g)),
            decreases self.0@.len() - i,
        {
            let ghost prev = pieces@.map_values(|t: String| t@);
            let piece: String = match &self.0[i] {
                RoutePart::Leader => String::new(),
                RoutePart::PathComponent(pc) => pc.clone(),
                RoutePart::Param(p) => {
                    let mut s = ":".to_owned();
                    s.append(p.as_str());
                    proof {
                        reveal_strlit(":");
                        assert(":"@ =~= seq![':']);
                    }
                    s
                },
                RoutePart::Wildcard => {
                    proof {
                        reveal_strlit("*");
                        assert("*"@ =~= seq!['*']);
                    }
                    "*".to_owned()
                },
            };
            proof {
                assert(piece@ == seg_text(self.0@[i as int]@));
            }
            pieces.push(piece);
            proof {
                assert(pieces@.map_values(|t: String| t@) =~= prev.push(
                    seg_text(self.0@[i as int]@),
                ));
                assert(parts_view(self.0@).take(i + 1).map_values(|g: SegView| seg_text(g))
                    =~= prev.push(seg_text(self.0@[i as int]@)));
            }
            i = i + 1;
        }
        proof {
            assert(parts_view(self.0@).take(i as int) =~= parts_view(self.0@));
            assert(pieces@.map_values(|t: String| t@) == self@.map_values(
                |g: SegView| seg_text(g),
            ));
        }
        join_tokens(&pieces)
    }

    /// Append one segment, returning a copy of the grown pattern.
    pub fn push(&mut self, arg: RoutePart) -> (r: Self)
        ensures
            final(self)@ == old(self)@.push(arg@),
            r@ == final(self)@,
    {
        let ghost argv = arg@;
        self.0.push(arg);
        proof {
            assert(parts_view(self.0@) =~= parts_view(old(self).0@).push(argv));
        }
        self.clone()
    }
}

impl Clone for RoutePart {
    /// A copy with an equal view.
    fn clone(&self) -> (r: Self)
        ensures
            r@ == self@,
    {
        match self {
            RoutePart::Wildcard => RoutePart::Wildcard,
            RoutePart::PathComponent(s) => RoutePart::PathComponent(s.clone()),
            RoutePart::Param(s) => RoutePart::Param(s.clone()),
            RoutePart::Leader => RoutePart::Leader,
        }
    }
}

impl Clone for Path {
    /// A copy with an equal view.
    fn clone(&self) -> (r: Self)
        ensures
            r@ == self@,
    {
        let mut v: Vec<RoutePart> = Vec::new();
        let mut i: usize = 0;
        while i < self.0.len()
            invariant
                i <= self.0@.len(),
                v@.len() == i,
                forall|j: int| 0 <= j < i ==> v@[j]@ == self.0@[j]@,
            decreases self.0@.len() - i,
        {
            v.push(self.0[i].clone());
            i = i + 1;
        }
        let r = Path(v);
        proof {
            assert(r@ =~= self@);
        }
        r
    }
}

impl PartialEq for Path {
    /// Structural equality: the same segments in the same order.
    fn eq(&self, other: &Self) -> (b: bool) {
        let n = self.0.len();
        if n != other.0.len() {
            proof {
                assert(self@.len() != other@.len());
            }
            return false;
        }
        let mut i: usize = 0;
        while i < n
            invariant
                i <= n,
                n == self.0@.len(),
                n == other.0@.len(),
                forall|j: int| 0 <= j < i ==> self.0@[j]@ == other.0@[j]@,
            decreases n - i,
        {
            let same = match (&self.0[i], &other.0[i]) {
                (RoutePart::Wildcard, RoutePart::Wildcard) => true,
                (RoutePart::Leader, RoutePart::Leader) => true,
                (RoutePart::PathComponent(a), RoutePart::PathComponent(b)) => str_eq(
                    a.as_str(),
                    b.as_str(),
                ),
                (RoutePart::Param(a), RoutePart::Param(b)) => str_eq(a.as_str(), b.as_str()),
                _ => false,
            };
            if !same {
                proof {
                    assert(self@[i as int] == self.0@[i as int]@);
                    assert(other@[i as int] == other.0@[i as int]@);
                }
                return false;
            }
            i = i + 1;
        }
        proof {
            assert(self@ =~= other@);
        }
        true
    }
}

impl vstd::std_specs::cmp::PartialEqSpecImpl for Path {
    open spec fn obeys_eq_spec() -> bool {
        true
    }

    open spec fn eq_spec(&self, other: &Self) -> bool {
        self@ == other@
    }
}

impl Eq for Path {

}

impl Default for Path {
    /// The root pattern.
    fn default() -> (r: Self)
        ensures
            r@ == seq![SegView::Leader],
    {
        let mut parts: Vec<RoutePart> = Vec::new();
        parts.push(RoutePart::Leader);
        let p = Path(parts);
        proof {
            assert(p@ =~= seq![SegView::Leader]);
        }
        p
    }
}

// ---------------------------------------------------------------------------
// Laws: trailing slashes and the render/parse round trip
// ---------------------------------------------------------------------------

/// Appending a trailing slash to a declaration never changes what it parses
/// to: `/account/` and `/account` are the same pattern.
pub proof fn lemma_parse_ignores_trailing_slash(s: Seq<char>)
    ensures
        parse_spec(s + seq!['/']) == parse_spec(s),
{
    assert((s + seq!['/']).len() > 0);
    assert((s + seq!['/']).last() == '/');
    assert((s + seq!['/']).drop_last() =~= s);
}

/// Does the pattern contain a wildcard anywhere?
spec fn has_wc(pat: Seq<SegView>) -> bool
    decreases pat.len(),
{
    pat.len() > 0 && (pat.last() is Wildcard || has_wc(pat.drop_last()))
}

/// Does a wildcard stand with no literal after it? This is exactly the
/// state in which a parameter token would be rejected as ambiguous.
spec fn wc_open(pat: Seq<SegView>) -> bool
    decreases pat.len(),
{
    if pat.len() == 0 {
        false
    } else {
        match pat.last() {
            SegView::Literal(_) => false,
            SegView::Wildcard => true,
            _ => wc_open(pat.drop_last()),
        }
    }
}

/// The shapes a parsed segment can take: a literal is a non-empty token with
/// no slash that neither names a parameter nor is the wildcard token; a
/// parameter's name has no slash and no leading colon left.
spec fn wf_seg(g: SegView) -> bool {
    match g {
        SegView::Leader => false,
        SegView::Literal(l) => l.len() > 0 && l.first() != ':' && !l.contains('/') && !(l.len()
            == 1 && l.first() == '*'),
        SegView::Param(p) => !p.contains('/') && (p.len() > 0 ==> p.first() != ':'),
        SegView::Wildcard => true,
    }
}

/// The shape of every pattern the parser produces: one leading `Leader`,
/// well-formed segments after it.
spec fn wf_segs(pat: Seq<SegView>) -> bool {
    &&& pat.len() >= 1
    &&& pat.first() == SegView::Leader
    &&& forall|i: int| 1 <= i < pat.len() ==> wf_seg(#[trigger] pat[i])
}

/// The ordering rules the parser enforces, stated as the parser walks: a
/// wildcard only where none was seen, a parameter only where no wildcard is
/// open.
spec fn wf_flags(pat: Seq<SegView>) -> bool
    decreases pat.len(),
{
    if pat.len() == 0 {
        true
    } else {
        &&& wf_flags(pat.drop_last())
        &&& (pat.last() is Wildcard ==> !has_wc(pat.drop_last()))
        &&& (pat.last() is Param ==> !wc_open(pat.drop_last()))
    }
}

proof fn lemma_flags_push(acc: Seq<SegView>, g: SegView)
    ensures
        has_wc(acc.push(g)) == (has_wc(acc) || g is Wildcard),
        wc_open(acc.push(g)) == if g is Literal {
            false
        } else if g is Wildcard {
            true
        } else {
            wc_open(acc)
        },
        wf_flags(acc.push(g)) == (wf_flags(acc) && (g is Wildcard ==> !has_wc(acc)) && (g
            is Param ==> !wc_open(acc))),
{
    assert(acc.push(g).drop_last() =~= acc);
    assert(acc.push(g).last() == g);
}

proof fn lemma_wf_segs_push(acc: Seq<SegView>, g: SegView)
    requires
        wf_segs(acc),
        wf_seg(g),
    ensures
        wf_segs(acc.push(g)),
{
    let acc2 = acc.push(g);
    assert(forall|i: int| 0 <= i < acc.len() ==> acc2[i] == acc[i]);
    assert(acc2[acc.len() as int] == g);
}

/// Well-formedness is inherited by prefixes.
proof fn lemma_wf_flags_prefix(pat: Seq<SegView>, i: int)
    requires
        wf_flags(pat),
        0 <= i <= pat.len(),
    ensures
        wf_flags(pat.take(i)),
    decreases pat.len() - i,
{
    if i < pat.len() {
        lemma_wf_flags_prefix(pat, i + 1);
        assert(pat.take(i + 1).drop_last() =~= pat.take(i));
    } else {
        assert(pat.take(i) =~= pat);
    }
}

proof fn lemma_strip_colons_props(s: Seq<char>)
    ensures
        strip_colons(s).len() > 0 ==> strip_colons(s).first() != ':',
        forall|c: char| !s.contains(c) ==> !strip_colons(s).contains(c),
    decreases s.len(),
{
    if s.len() > 0 && s.first() == ':' {
        assert(forall|c: char| s.contains(c) || !s.drop_first().contains(c)) by {
            assert(forall|j: int|
                0 <= j < s.drop_first().len() ==> s.drop_first()[j] == s[j + 1]);
        }
        lemma_strip_colons_props(s.drop_first());
    }
}

proof fn lemma_first_slash_props(s: Seq<char>)
    ensures
        first_slash(s) <= s.len(),
        forall|j: int| 0 <= j < first_slash(s) ==> s[j] != '/',
        first_slash(s) < s.len() ==> s[first_slash(s) as int] == '/',
    decreases s.len(),
{
    if s.len() > 0 && s.first() != '/' {
        lemma_first_slash_props(s.drop_first());
        assert(forall|j: int| 0 <= j < s.drop_first().len() ==> s.drop_first()[j] == s[j + 1]);
        assert forall|j: int| 0 <= j < first_slash(s) implies s[j] != '/' by {
            if j > 0 {
                assert(s.drop_first()[j - 1] != '/');
            }
        }
    }
}

proof fn lemma_split_no_slash(s: Seq<char>)
    ensures
        forall|i: int| 0 <= i < split_slash(s).len() ==> !(#[trigger] split_slash(s)[i]).contains(
            '/',
        ),
    decreases s.len(),
{
    lemma_first_slash_props(s);
    let i = first_slash(s);
    if i >= s.len() {
        assert(!s.contains('/')) by {
            if s.contains('/') {
                let j = choose|j: int| 0 <= j < s.len() && s[j] == '/';
            }
        }
    } else {
        assert(!s.take(i as int).contains('/')) by {
            if s.take(i as int).contains('/') {
                let j = choose|j: int|
                    0 <= j < s.take(i as int).len() && s.take(i as int)[j] == '/';
            }
        }
        lemma_split_no_slash(s.skip(i as int + 1));
        assert(forall|k: int|
            0 <= k < split_slash(s).len() ==> split_slash(s)[k] == (seq![s.take(i as int)]
                + split_slash(s.skip(i as int + 1)))[k]);
    }
}

/// Running the parser fold preserves well-formedness: whatever pattern comes
/// out `Ok` has the parser's shape and ordering rules.
proof fn lemma_parse_tokens_wf(toks: Seq<Seq<char>>, acc: Seq<SegView>, seen: bool, just: bool)
    requires
        forall|i: int| 0 <= i < toks.len() ==> !(#[trigger] toks[i]).contains('/'),
        wf_segs(acc),
        wf_flags(acc),
        seen == has_wc(acc),
        just == wc_open(acc),
    ensures
        parse_tokens(toks, acc, seen, just) matches Ok(p) ==> wf_segs(p) && wf_flags(p),
    decreases toks.len(),
{
    if toks.len() == 0 {
        return ;
    }
    let t = toks.first();
    let rest = toks.drop_first();
    assert(forall|i: int| 0 <= i < rest.len() ==> rest[i] == toks[i + 1]);
    if t.len() == 0 {
        lemma_parse_tokens_wf(rest, acc, seen, just);
    } else if t.first() == ':' {
        if !just {
            let g = SegView::Param(strip_colons(t));
            lemma_strip_colons_props(t);
            lemma_wf_segs_push(acc, g);
            lemma_flags_push(acc, g);
            lemma_parse_tokens_wf(rest, acc.push(g), seen, just);
        }
    } else if t.len() == 1 && t.first() == '*' {
        if !seen {
            let g = SegView::Wildcard;
            lemma_wf_segs_push(acc, g);
            lemma_flags_push(acc, g);
            lemma_parse_tokens_wf(rest, acc.push(g), true, true);
        }
    } else {
        let g = SegView::Literal(t);
        lemma_wf_segs_push(acc, g);
        lemma_flags_push(acc, g);
        lemma_parse_tokens_wf(rest, acc.push(g), seen, false);
    }
}

/// Everything the parser accepts is well-formed.
proof fn lemma_parse_wf(s: Seq<char>, pat: Seq<SegView>)
    requires
        parse_spec(s) == Ok::<Seq<SegView>, ParseFail>(pat),
    ensures
        wf_segs(pat),
        wf_flags(pat),
{
    let t = trim_slashes(s);
    if !t.contains('/') {
        assert(pat =~= seq![SegView::Leader]);
        assert(wf_segs(pat));
        assert(pat.drop_last() =~= Seq::<SegView>::empty());
        assert(wf_flags(Seq::<SegView>::empty()));
        assert(wf_flags(pat));
    } else {
        lemma_split_no_slash(t);
        let acc = seq![SegView::Leader];
        assert(wf_segs(acc));
        assert(acc.drop_last() =~= Seq::<SegView>::empty());
        assert(!has_wc(Seq::<SegView>::empty()));
        assert(!wc_open(Seq::<SegView>::empty()));
        assert(wf_flags(Seq::<SegView>::empty()));
        assert(!has_wc(acc));
        assert(!wc_open(acc));
        assert(wf_flags(acc));
        lemma_parse_tokens_wf(split_slash(t), acc, false, false);
    }
}

proof fn lemma_join_last(pieces: Seq<Seq<char>>)
    requires
        pieces.len() > 0,
        pieces.last().len() > 0,
    ensures
        join_slash(pieces).len() > 0,
        join_slash(pieces).last() == pieces.last().last(),
    decreases pieces.len(),
{
    if pieces.len() > 1 {
        assert(pieces.drop_first().last() == pieces.last());
        lemma_join_last(pieces.drop_first());
    }
}

proof fn lemma_join_split(pieces: Seq<Seq<char>>)
    requires
        pieces.len() > 0,
        forall|i: int| 0 <= i < pieces.len() ==> !(#[trigger] pieces[i]).contains('/'),
    ensures
        split_slash(join_slash(pieces)) == pieces,
    decreases pieces.len(),
{
    let j = join_slash(pieces);
    if pieces.len() == 1 {
        assert(!j.contains('/'));
        assert(forall|k: int| 0 <= k < j.len() ==> j[k] != '/') by {
            if exists|k: int| 0 <= k < j.len() && j[k] == '/' {
                let k = choose|k: int| 0 <= k < j.len() && j[k] == '/';
                assert(j.contains('/'));
            }
        }
        lemma_first_slash_clean(j);
        assert(split_slash(j) =~= seq![pieces.first()]);
        assert(seq![pieces.first()] =~= pieces);
    } else {
        let p0 = pieces.first();
        let rest = join_slash(pieces.drop_first());
        assert(j == p0 + seq!['/'] + rest);
        assert(forall|k: int| 0 <= k < p0.len() ==> j[k] == p0[k]);
        assert(forall|k: int| 0 <= k < p0.len() ==> p0[k] != '/') by {
            if exists|k: int| 0 <= k < p0.len() && p0[k] == '/' {
                let k = choose|k: int| 0 <= k < p0.len() && p0[k] == '/';
                assert(p0.contains('/'));
            }
        }
        assert(j[p0.len() as int] == '/');
        lemma_first_slash_at(j, p0.len() as int);
        assert(j.take(p0.len() as int) =~= p0);
        assert(j.skip(p0.len() as int + 1) =~= rest);
        assert(forall|i: int|
            0 <= i < pieces.drop_first().len() ==> pieces.drop_first()[i] == pieces[i + 1]);
        lemma_join_split(pieces.drop_first());
        assert(split_slash(j) == seq![p0] + pieces.drop_first());
        assert(seq![p0] + pieces.drop_first() =~= pieces);
    }
}

proof fn lemma_join_has_slash(pieces: Seq<Seq<char>>)
    requires
        pieces.len() >= 2,
    ensures
        join_slash(pieces).contains('/'),
{
    let j = join_slash(pieces);
    let p0 = pieces.first();
    assert(j == p0 + seq!['/'] + join_slash(pieces.drop_first()));
    assert(j[p0.len() as int] == '/');
}

/// Reparsing the rendered tokens of a well-formed pattern reproduces the
/// pattern: each segment's text classifies back to the same segment, and the
/// ordering rules guarantee the parser raises no error along the way.
proof fn lemma_reparse_segs(pat: Seq<SegView>, i: int)
    requires
        wf_segs(pat),
        wf_flags(pat),
        1 <= i <= pat.len(),
    ensures
        parse_tokens(
            pat.map_values(|g: SegView| seg_text(g)).skip(i),
            pat.take(i),
            has_wc(pat.take(i)),
            wc_open(pat.take(i)),
        ) == Ok::<Seq<SegView>, ParseFail>(pat),
    decreases pat.len() - i,
{
    let texts = pat.map_values(|g: SegView| seg_text(g));
    let toks = texts.skip(i);
    let acc = pat.take(i);
    if i == pat.len() {
        assert(toks.len() == 0);
        assert(acc =~= pat);
        return ;
    }
    let g = pat[i];
    let t = toks.first();
    assert(t == seg_text(g));
    assert(toks.drop_first() =~= texts.skip(i + 1));
    assert(pat.take(i + 1) =~= acc.push(g));
    lemma_flags_push(acc, g);
    lemma_wf_flags_prefix(pat, i + 1);
    match g {
        SegView::Leader => {
            assert(false);
        },
        SegView::Literal(l) => {
            assert(t == l);
            assert(t.len() > 0 && t.first() != ':' && !(t.len() == 1 && t.first() == '*'));
            lemma_reparse_segs(pat, i + 1);
        },
        SegView::Param(p) => {
            assert(t == seq![':'] + p);
            assert(t.first() == ':');
            assert(t.len() > 0);
            // the prefix rules say no wildcard is open where a parameter
            // stands
            assert(!wc_open(acc));
            assert(strip_colons(t) == p) by {
                assert(t.drop_first() =~= p);
                assert(strip_colons(p) == p);
            }
            lemma_reparse_segs(pat, i + 1);
        },
        SegView::Wildcard => {
            assert(t =~= seq!['*']);
            assert(t.len() == 1 && t.first() == '*');
            assert(t.first() != ':');
            // the prefix rules say no wildcard was seen before this one
            assert(!has_wc(acc));
            lemma_reparse_segs(pat, i + 1);
        },
    }
}

/// The round trip: rendering any pattern the parser produced and parsing the
/// rendering gives the same pattern back.
#[verifier::rlimit(60)]
pub proof fn lemma_render_parse_roundtrip(s: Seq<char>, pat: Seq<SegView>)
    requires
        parse_spec(s) == Ok::<Seq<SegView>, ParseFail>(pat),
    ensures
        parse_spec(render_spec(pat)) == Ok::<Seq<SegView>, ParseFail>(pat),
{
    lemma_parse_wf(s, pat);
    if pat.len() < 2 {
        assert(pat =~= seq![SegView::Leader]);
        let r = seq!['/'];
        assert(render_spec(pat) == r);
        assert(r.last() == '/');
        assert(r.drop_last() =~= Seq::<char>::empty());
        assert(trim_slashes(Seq::<char>::empty()) == Seq::<char>::empty());
        assert(trim_slashes(r) =~= Seq::<char>::empty());
        assert(!Seq::<char>::empty().contains('/'));
        assert(parse_spec(r) == Ok::<Seq<SegView>, ParseFail>(seq![SegView::Leader]));
    } else {
        let texts = pat.map_values(|g: SegView| seg_text(g));
        let r = render_spec(pat);
        assert(r == join_slash(texts));
        assert(forall|k: int| 0 <= k < texts.len() ==> texts[k] == seg_text(pat[k]));
        // no piece contains a slash
        assert(forall|k: int| 0 <= k < texts.len() ==> !(#[trigger] texts[k]).contains('/')) by {
            assert forall|k: int| 0 <= k < texts.len() implies !(#[trigger] texts[k]).contains(
                '/',
            ) by {
                if k == 0 {
                    assert(texts[0] =~= Seq::<char>::empty());
                    if texts[0].contains('/') {
                        let m = choose|m: int| 0 <= m < texts[0].len() && texts[0][m] == '/';
                    }
                } else {
                    match pat[k] {
                        SegView::Leader => {
                            assert(false);
                        },
                        SegView::Literal(l) => {},
                        SegView::Param(p) => {
                            if texts[k].contains('/') {
                                let m = choose|m: int|
                                    0 <= m < texts[k].len() && texts[k][m] == '/';
                                assert(m > 0);
                                assert(p[m - 1] == '/');
                                assert(p.contains('/'));
                            }
                        },
                        SegView::Wildcard => {
                            if texts[k].contains('/') {
                                let m = choose|m: int|
                                    0 <= m < texts[k].len() && texts[k][m] == '/';
                                assert(texts[k] =~= seq!['*']);
                            }
                        },
                    }
                }
            }
        }
        // the last piece is non-empty, so no trailing slash to trim
        assert(texts.last().len() > 0) by {
            match pat[pat.len() - 1] {
                SegView::Leader => {
                    assert(false);
                },
                SegView::Literal(l) => {},
                SegView::Param(p) => {},
                SegView::Wildcard => {},
            }
        }
        lemma_join_last(texts);
        assert(r.last() != '/') by {
            assert(r.last() == texts.last().last());
            assert(texts.last().contains(texts.last().last()));
        }
        assert(trim_slashes(r) == r);
        lemma_join_has_slash(texts);
        lemma_join_split(texts);
        assert(split_slash(trim_slashes(r)) == texts);
        // the fold over the rendered tokens rebuilds the pattern
        assert(texts.skip(1).drop_first() =~= texts.skip(2));
        lemma_reparse_segs(pat, 1);
        let acc1 = pat.take(1);
        assert(acc1 =~= seq![SegView::Leader]);
        assert(acc1.drop_last() =~= Seq::<SegView>::empty());
        assert(!has_wc(Seq::<SegView>::empty()));
        assert(!wc_open(Seq::<SegView>::empty()));
        assert(!has_wc(acc1));
        assert(!wc_open(acc1));
        // the first token is the leader's empty text and is skipped
        assert(texts.first().len() == 0);
        assert(texts.skip(0) =~= texts);
        assert(texts.skip(0).drop_first() =~= texts.skip(1));
        assert(parse_tokens(texts, seq![SegView::Leader], false, false) == parse_tokens(
            texts.skip(1),
            acc1,
            has_wc(acc1),
            wc_open(acc1),
        ));
    }
}

} // verus!
