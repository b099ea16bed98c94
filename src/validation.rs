use vstd::prelude::*;

use crate::error::{AccessorValidationError, AccessorValidationErrorKind};
use crate::parser::{to_chars, views_of_keys};
use crate::string_interpolator::{InterpolationModel, SpannedStringInterpolator};
use crate::{AccessorKey, AccessorModel, AccessorParserSpan, KeyValue, SpannedAccessor, SpannedAccessorKey};

verus! {

broadcast use vstd::seq_lib::group_to_multiset_ensures, vstd::std_specs::vec::axiom_vec_decreases_to_view, vstd::seq::axiom_seq_index_decreases;

/// A schema of the paths that accessors may take.
pub enum PathNode {
    /// A map from names to the schema below each; a well-formed node lists
    /// each name once (see `wf`).
    Node { children: Vec<(String, PathNode)> },
    /// Anything below is accepted.
    Root,
    /// A free-form object: any named entry below is accepted, no index.
    ObjectRoot,
    /// A scalar: nothing below.
    KnownField,
}

/// No name is listed twice.
pub open spec fn distinct_names(children: Seq<(String, PathNode)>) -> bool {
    forall|i: int, j: int|
        0 <= i < j < children.len() ==> (#[trigger] children[i]).0@ != (#[trigger] children[j]).0@
}

impl PathNode {
    /// Every map of the schema lists each of its names once.
    pub open spec fn wf(&self) -> bool
        decreases self,
    {
        match self {
            PathNode::Node { children } => distinct_names(children@) && forall|i: int|
                0 <= i < children@.len() ==> (#[trigger] children@[i]).1.wf(),
            _ => true,
        }
    }
}

/// The child that `key` names among `children`: the first entry with that name.
pub open spec fn lookup(children: Seq<(String, PathNode)>, key: Seq<char>) -> Option<PathNode>
    decreases children.len(),
{
    if children.len() == 0 {
        None
    } else if children[0].0@ == key {
        Some(children[0].1)
    } else {
        lookup(children.drop_first(), key)
    }
}

/// The names of `children`, in order.
pub open spec fn names_of(children: Seq<(String, PathNode)>) -> Seq<Seq<char>> {
    children.map_values(|c: (String, PathNode)| c.0@)
}

/// Levenshtein distance between the first `i` characters of `a` and the
/// first `j` characters of `b`.
pub open spec fn lev(a: Seq<char>, b: Seq<char>, i: nat, j: nat) -> nat
    decreases i + j,
{
    if i == 0 {
        j
    } else if j == 0 {
        i
    } else {
        let del = lev(a, b, (i - 1) as nat, j) + 1;
        let ins = lev(a, b, i, (j - 1) as nat) + 1;
        let sub = lev(a, b, (i - 1) as nat, (j - 1) as nat) + if a[i - 1] == b[j - 1] {
            0nat
        } else {
            1nat
        };
        if del <= ins && del <= sub {
            del
        } else if ins <= sub {
            ins
        } else {
            sub
        }
    }
}

/// The least number of single-character insertions, deletions and
/// substitutions that turn `a` into `b`.
pub open spec fn levenshtein(a: Seq<char>, b: Seq<char>) -> nat {
    lev(a, b, a.len(), b.len())
}

/// Why an accessor fails a schema, as a mathematical value.
pub ghost enum ValidationFailure {
    NotStringRepresentable(AccessorParserSpan),
    NumericIndexInMap(AccessorParserSpan),
    NotIndexable(AccessorParserSpan),
    /// `attempted` is not among `names`, the names of the map reached.
    UnknownKey { span: AccessorParserSpan, attempted: Seq<char>, names: Seq<Seq<char>> },
}

/// Checks `keys` (what is left of an accessor whose span is `whole`) against
/// `node`; `interpolated` asks that the path end on a value with a text form.
pub open spec fn path_check(
    node: PathNode,
    whole: AccessorParserSpan,
    keys: Seq<(KeyValue, AccessorParserSpan)>,
    interpolated: bool,
) -> Result<(), ValidationFailure>
    decreases keys.len(),
{
    match node {
        PathNode::Root => Ok(()),
        PathNode::ObjectRoot => if keys.len() == 0 {
            if interpolated {
                Err(ValidationFailure::NotStringRepresentable(whole))
            } else {
                Ok(())
            }
        } else {
            match keys[0].0 {
                KeyValue::Text(_) => Ok(()),
                KeyValue::Index(_) => Err(ValidationFailure::NumericIndexInMap(keys[0].1)),
            }
        },
        PathNode::KnownField => if keys.len() == 0 {
            Ok(())
        } else {
            Err(ValidationFailure::NotIndexable(keys[0].1))
        },
        PathNode::Node { children } => if keys.len() == 0 {
            if interpolated {
                Err(ValidationFailure::NotStringRepresentable(whole))
            } else {
                Ok(())
            }
        } else {
            match keys[0].0 {
                KeyValue::Index(_) => Err(ValidationFailure::NumericIndexInMap(keys[0].1)),
                KeyValue::Text(k) => match lookup(children@, k) {
                    Some(child) => path_check(child, whole, keys.drop_first(), interpolated),
                    None => Err(
                        ValidationFailure::UnknownKey {
                            span: keys[0].1,
                            attempted: k,
                            names: names_of(children@),
                        },
                    ),
                },
            }
        },
    }
}

/// `suggestions` holds exactly `names`, each as often, ordered by
/// non-decreasing edit distance to `attempted`.
pub open spec fn ranked_by_distance(
    suggestions: Seq<Seq<char>>,
    attempted: Seq<char>,
    names: Seq<Seq<char>>,
) -> bool {
    &&& suggestions.to_multiset() == names.to_multiset()
    &&& forall|i: int, j: int|
        0 <= i < j < suggestions.len() ==> levenshtein(#[trigger] suggestions[i], attempted)
            <= levenshtein(#[trigger] suggestions[j], attempted)
}

pub open spec fn string_views(v: Seq<String>) -> Seq<Seq<char>> {
    v.map_values(|s: String| s@)
}

impl AccessorValidationError {
    /// This error reports `f`.
    pub open spec fn reports(&self, f: ValidationFailure) -> bool {
        match f {
            ValidationFailure::NotStringRepresentable(sp) => self.span == sp
                && self.kind is NotStringRepresentable,
            ValidationFailure::NumericIndexInMap(sp) => self.span == sp
                && self.kind is NumericIndexInMap,
            ValidationFailure::NotIndexable(sp) => self.span == sp && self.kind is NotIndexable,
            ValidationFailure::UnknownKey { span, attempted, names } => self.span == span
                && match self.kind {
                AccessorValidationErrorKind::UnknownKey { possible_keys } => ranked_by_distance(
                    string_views(possible_keys@),
                    attempted,
                    names,
                ),
                _ => false,
            },
        }
    }
}

/// The failures of the segments of an interpolation, in order; segments
/// that pass add none.
pub open spec fn interpolation_failures(
    node: PathNode,
    segments: Seq<(Seq<char>, AccessorModel)>,
) -> Seq<ValidationFailure>
    decreases segments.len(),
{
    if segments.len() == 0 {
        Seq::empty()
    } else {
        let rest = interpolation_failures(node, segments.drop_last());
        let a = segments.last().1;
        match path_check(node, a.span, a.keys, true) {
            Err(f) => rest.push(f),
            Ok(_) => rest,
        }
    }
}

pub proof fn lemma_lev_bound(a: Seq<char>, b: Seq<char>, i: nat, j: nat)
    ensures
        lev(a, b, i, j) <= if i <= j {
            j
        } else {
            i
        },
    decreases i + j,
{
    if i > 0 && j > 0 {
        lemma_lev_bound(a, b, (i - 1) as nat, (j - 1) as nat);
    }
}

/// Edit distance is symmetric.
pub proof fn lemma_lev_symmetric(a: Seq<char>, b: Seq<char>, i: nat, j: nat)
    ensures
        lev(a, b, i, j) == lev(b, a, j, i),
    decreases i + j,
{
    if i > 0 && j > 0 {
        lemma_lev_symmetric(a, b, (i - 1) as nat, j);
        lemma_lev_symmetric(a, b, i, (j - 1) as nat);
        lemma_lev_symmetric(a, b, (i - 1) as nat, (j - 1) as nat);
    }
}

/// A prefix is at distance zero from itself.
pub proof fn lemma_lev_same(a: Seq<char>, i: nat)
    ensures
        lev(a, a, i, i) == 0,
    decreases i,
{
    if i > 0 {
        lemma_lev_same(a, (i - 1) as nat);
    }
}

/// Edit distance is symmetric: `levenshtein(a, b) == levenshtein(b, a)`.
pub proof fn lemma_edit_distance_symmetric(a: Seq<char>, b: Seq<char>)
    ensures
        levenshtein(a, b) == levenshtein(b, a),
{
    lemma_lev_symmetric(a, b, a.len(), b.len());
}

/// Every string is at edit distance zero from itself.
pub proof fn lemma_edit_distance_identity(s: Seq<char>)
    ensures
        levenshtein(s, s) == 0,
{
    lemma_lev_same(s, s.len());
}

/// The Levenshtein distance of all of `a` and all of `b`, computed with one
/// row of `b.len() + 1` entries.
fn levenshtein_rows(a: &Vec<char>, b: &Vec<char>) -> (r: usize)
    ensures
        r == levenshtein(a@, b@),
{
    let n = b.len();
    let mut row: Vec<usize> = Vec::new();
    row.push(0);
    let mut j: usize = 0;
    while j < n
        invariant
            j <= n == b@.len(),
            row@.len() == j + 1,
            forall|k: int| 0 <= k <= j ==> row@[k] == lev(a@, b@, 0, k as nat),
        decreases n - j,
    {
        row.push(j + 1);
        j = j + 1;
    }
    let width = row.len();
    let height = a.len();
    let mut i: usize = 0;
    while i < height
        invariant
            height == a@.len(),
            i <= a@.len(),
            n == b@.len(),
            width == n + 1,
            row@.len() == n + 1,
            forall|k: int| 0 <= k <= n ==> row@[k] == lev(a@, b@, i as nat, k as nat),
        decreases a@.len() - i,
    {
        let ghost ii = (i + 1) as nat;
        let mut diag = row[0];
        proof {
            lemma_lev_bound(a@, b@, ii, 0);
        }
        row.set(0, i + 1);
        let mut j: usize = 1;
        while j <= n
            invariant
                1 <= j <= n + 1,
                n == b@.len(),
                width == n + 1,
                row@.len() == n + 1,
                i < a@.len(),
                height == a@.len(),
                ii == i + 1,
                diag == lev(a@, b@, i as nat, (j - 1) as nat),
                forall|k: int| 0 <= k < j ==> row@[k] == lev(a@, b@, ii, k as nat),
                forall|k: int| j <= k <= n ==> row@[k] == lev(a@, b@, i as nat, k as nat),
            decreases n + 1 - j,
        {
            let up = row[j];
            let left = row[j - 1];
            proof {
                lemma_lev_bound(a@, b@, i as nat, (j - 1) as nat);
            }
            assert(diag < usize::MAX);
            let t = if up < left {
                up
            } else {
                left
            };
            let cur = if a[i] == b[j - 1] {
                if diag <= t {
                    diag
                } else {
                    t + 1
                }
            } else if diag <= t {
                diag + 1
            } else {
                t + 1
            };
            assert(cur == lev(a@, b@, ii, j as nat));
            diag = up;
            row.set(j, cur);
            j = j + 1;
        }
        i = i + 1;
    }
    row[n]
}

/// The Levenshtein distance between `s1` and `s2`, counted in characters.
pub fn edit_distance(s1: &str, s2: &str) -> (r: usize)
    ensures
        r == levenshtein(s1@, s2@),
{
    let a = to_chars(s1);
    let b = to_chars(s2);
    if a.len() < b.len() {
        let r = levenshtein_rows(&b, &a);
        proof {
            lemma_edit_distance_symmetric(s1@, s2@);
        }
        r
    } else {
        levenshtein_rows(&a, &b)
    }
}

/// The names of `children`, closest to `attempted` first.
fn rank_suggestions(children: &Vec<(String, PathNode)>, attempted: &String) -> (r: Vec<String>)
    ensures
        ranked_by_distance(string_views(r@), attempted@, names_of(children@)),
{
    let mut names: Vec<String> = Vec::new();
    let mut dists: Vec<usize> = Vec::new();
    let mut i: usize = 0;
    while i < children.len()
        invariant
            i <= children@.len(),
            names@.len() == dists@.len(),
            forall|k: int| 0 <= k < dists@.len() ==> dists@[k] == levenshtein(#[trigger] names@[k]@, attempted@),
            forall|k: int, l: int| 0 <= k < l < dists@.len() ==> #[trigger] dists@[k] <= #[trigger] dists@[l],
            string_views(names@).to_multiset() == names_of(children@).subrange(0, i as int).to_multiset(),
        decreases children@.len() - i,
    {
        let name = children[i].0.clone();
        let d = edit_distance(name.as_str(), attempted.as_str());
        let mut j: usize = 0;
        while j < dists.len() && dists[j] <= d
            invariant
                j <= dists@.len(),
                forall|k: int| 0 <= k < j ==> dists@[k] <= d,
            decreases dists@.len() - j,
        {
            j = j + 1;
        }
        let ghost old_names = names@;
        let ghost old_dists = dists@;
        proof {
            assert(forall|k: int| j <= k < old_dists.len() ==> old_dists[k] > d) by {
                assert forall|k: int| j <= k < old_dists.len() implies old_dists[k] > d by {
                    if j < k {
                        assert(old_dists[j as int] <= old_dists[k]);
                    }
                }
            }
        }
        dists.insert(j, d);
        names.insert(j, name);
        proof {
            assert(forall|k: int| 0 <= k < dists@.len() ==> dists@[k] == (if k < j {
                old_dists[k]
            } else if k == j {
                d
            } else {
                old_dists[k - 1]
            }));
            assert(string_views(names@) =~= string_views(old_names).insert(j as int, name@));
            let all = names_of(children@);
            assert(all.subrange(0, i + 1) =~= all.subrange(0, i as int).push(name@));
            assert(forall|k: int| 0 <= k < names@.len() ==> names@[k] == (if k < j {
                old_names[k]
            } else if k == j {
                name
            } else {
                old_names[k - 1]
            }));
        }
        i = i + 1;
    }
    proof {
        let all = names_of(children@);
        assert(all.subrange(0, children@.len() as int) =~= all);
        assert forall|k: int, l: int| 0 <= k < l < names@.len() implies levenshtein(
            #[trigger] string_views(names@)[k],
            attempted@,
        ) <= levenshtein(#[trigger] string_views(names@)[l], attempted@) by {
            assert(dists@[k] <= dists@[l]);
        }
    }
    names
}

/// The position of the first entry of `children` named `key`.
fn find_child(children: &Vec<(String, PathNode)>, key: &String) -> (r: Option<usize>)
    ensures
        r matches Some(i) ==> i < children@.len() && lookup(children@, key@) == Some(children@[i as int].1),
        r is None ==> lookup(children@, key@) is None,
{
    let mut i: usize = 0;
    assert(children@.subrange(0, children@.len() as int) =~= children@);
    while i < children.len()
        invariant
            i <= children@.len(),
            lookup(children@, key@) == lookup(children@.subrange(i as int, children@.len() as int), key@),
        decreases children@.len() - i,
    {
        let ghost rest = children@.subrange(i as int, children@.len() as int);
        assert(rest.drop_first() =~= children@.subrange(i + 1, children@.len() as int));
        if children[i].0 == *key {
            return Some(i);
        }
        i = i + 1;
    }
    None
}

fn failure_error(kind: AccessorValidationErrorKind, span: AccessorParserSpan) -> (r: AccessorValidationError)
    ensures
        r.kind == kind,
        r.span == span,
{
    AccessorValidationError { kind, span }
}

/// Checks `keys[from..]`, what is left of the accessor spanning
/// `accessor_span`, against `node`.
fn path_contains(
    node: &PathNode,
    accessor_span: AccessorParserSpan,
    keys: &[SpannedAccessorKey],
    from: usize,
    is_interpolator: bool,
) -> (r: Result<(), AccessorValidationError>)
    requires
        from <= keys@.len(),
        node.wf(),
    ensures
        r is Ok ==> path_check(*node, accessor_span, views_of_keys(keys@).subrange(from as int, keys@.len() as int), is_interpolator) is Ok,
        r matches Err(e) ==> path_check(*node, accessor_span, views_of_keys(keys@).subrange(from as int, keys@.len() as int), is_interpolator) matches Err(f) && e.reports(f),
    decreases keys@.len() - from,
{
    let ghost rest = views_of_keys(keys@).subrange(from as int, keys@.len() as int);
    proof {
        if from < keys@.len() {
            assert(rest[0] == keys@[from as int]@);
        }
    }
    match node {
        PathNode::Root => Ok(()),
        PathNode::ObjectRoot => {
            if from == keys.len() {
                if is_interpolator {
                    Err(failure_error(AccessorValidationErrorKind::NotStringRepresentable, accessor_span))
                } else {
                    Ok(())
                }
            } else {
                match &keys[from].key {
                    AccessorKey::String(_) => Ok(()),
                    AccessorKey::Numeric(_) => Err(failure_error(AccessorValidationErrorKind::NumericIndexInMap, keys[from].span)),
                }
            }
        },
        PathNode::KnownField => {
            if from == keys.len() {
                Ok(())
            } else {
                Err(failure_error(AccessorValidationErrorKind::NotIndexable, keys[from].span))
            }
        },
        PathNode::Node { children } => {
            if from == keys.len() {
                if is_interpolator {
                    Err(failure_error(AccessorValidationErrorKind::NotStringRepresentable, accessor_span))
                } else {
                    Ok(())
                }
            } else {
                match &keys[from].key {
                    AccessorKey::Numeric(_) => Err(failure_error(AccessorValidationErrorKind::NumericIndexInMap, keys[from].span)),
                    AccessorKey::String(key) => match find_child(children, key) {
                        Some(idx) => {
                            proof {
                                assert(rest.drop_first() =~= views_of_keys(keys@).subrange(from + 1, keys@.len() as int));
                            }
                            path_contains(&children[idx].1, accessor_span, keys, from + 1, is_interpolator)
                        },
                        None => {
                            let possible_keys = rank_suggestions(children, key);
                            Err(failure_error(AccessorValidationErrorKind::UnknownKey { possible_keys }, keys[from].span))
                        },
                    },
                }
            }
        },
    }
}

impl PathNode {
    /// Whether every map of the schema lists each of its names once.
    pub fn is_well_formed(&self) -> (r: bool)
        ensures
            r == self.wf(),
        decreases self,
    {
        match self {
            PathNode::Node { children } => {
                let mut i: usize = 0;
                while i < children.len()
                    invariant
                        i <= children@.len(),
                        *self == (PathNode::Node { children: *children }),
                        forall|a: int, b: int|
                            0 <= a < b < i ==> (#[trigger] children@[a]).0@ != (#[trigger] children@[b]).0@,
                        forall|a: int| 0 <= a < i ==> (#[trigger] children@[a]).1.wf(),
                    decreases children@.len() - i,
                {
                    let mut j: usize = 0;
                    while j < i
                        invariant
                            j <= i < children@.len(),
                            *self == (PathNode::Node { children: *children }),
                            forall|b: int| 0 <= b < j ==> (#[trigger] children@[b]).0@ != children@[i as int].0@,
                        decreases i - j,
                    {
                        if children[j].0 == children[i].0 {
                            assert(!distinct_names(children@)) by {
                                assert(children@[j as int].0@ == children@[i as int].0@);
                            }
                            return false;
                        }
                        j = j + 1;
                    }
                    proof {
                        let c = children@[i as int];
                        assert(decreases_to!(*self => (*self)->children));
                        assert(decreases_to!(*children => children@));
                        assert(decreases_to!(children@ => c));
                        assert(decreases_to!(c => c.1));
                    }
                    if !children[i].1.is_well_formed() {
                        assert(!children@[i as int].1.wf());
                        return false;
                    }
                    i = i + 1;
                }
                true
            },
            _ => true,
        }
    }

    /// Checks an accessor used on its own: the path may end on a map.
    pub fn validate_accessor(&self, accessor: &SpannedAccessor) -> (r: Result<(), AccessorValidationError>)
        requires
            self.wf(),
        ensures
            r is Ok ==> path_check(*self, accessor@.span, accessor@.keys, false) is Ok,
            r matches Err(e) ==> path_check(*self, accessor@.span, accessor@.keys, false) matches Err(f) && e.reports(f),
    {
        self.validate(accessor, false)
    }

    /// Checks every accessor of an interpolation, each of which must end on
    /// a value with a text form; the errors of all failing segments are
    /// returned, in order.
    pub fn validate_interpolator(&self, interpolator: &SpannedStringInterpolator) -> (r: Result<(), Vec<AccessorValidationError>>)
        requires
            self.wf(),
        ensures
            r is Ok <==> interpolation_failures(*self, interpolator@.segments).len() == 0,
            r matches Err(errors) ==> errors@.len() == interpolation_failures(*self, interpolator@.segments).len()
                && forall|k: int| 0 <= k < errors@.len() ==> #[trigger] errors@[k].reports(interpolation_failures(*self, interpolator@.segments)[k]),
    {
        let mut errors: Vec<AccessorValidationError> = Vec::new();
        let mut i: usize = 0;
        let ghost segs = interpolator@.segments;
        while i < interpolator.segments.len()
            invariant
                i <= segs.len(),
                segs == interpolator@.segments,
                self.wf(),
                segs.len() == interpolator.segments@.len(),
                errors@.len() == interpolation_failures(*self, segs.subrange(0, i as int)).len(),
                forall|k: int| 0 <= k < errors@.len() ==> #[trigger] errors@[k].reports(interpolation_failures(*self, segs.subrange(0, i as int))[k]),
            decreases segs.len() - i,
        {
            let segment = &interpolator.segments[i];
            assert(segs.subrange(0, i + 1).drop_last() =~= segs.subrange(0, i as int));
            assert(segs[i as int] == segment@);
            match self.validate(&segment.accessor, true) {
                Ok(()) => {},
                Err(err) => {
                    errors.push(err);
                },
            }
            i = i + 1;
        }
        assert(segs.subrange(0, i as int) =~= segs);
        if errors.len() == 0 {
            return Ok(());
        }
        Err(errors)
    }

    fn validate(&self, accessor: &SpannedAccessor, is_interpolator: bool) -> (r: Result<(), AccessorValidationError>)
        requires
            self.wf(),
        ensures
            r is Ok ==> path_check(*self, accessor@.span, accessor@.keys, is_interpolator) is Ok,
            r matches Err(e) ==> path_check(*self, accessor@.span, accessor@.keys, is_interpolator) matches Err(f) && e.reports(f),
    {
        let keys = accessor.keys.as_slice();
        assert(views_of_keys(keys@).subrange(0, keys@.len() as int) =~= accessor@.keys);
        path_contains(self, accessor.span, keys, 0, is_interpolator)
    }
}

} // verus!
