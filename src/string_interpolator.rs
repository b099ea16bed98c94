use vstd::prelude::*;

use crate::error::AccessorParserError;
use crate::parser::{
    accessor_at, lemma_accessor_advances, lemma_scan_bounds, scan, take_spanned_accessor,
    take_string_with_escape_until, to_chars,
};
use crate::{key_values, Accessor, AccessorModel, KeyValue, SpannedAccessor};

verus! {

/// The model of an interpolated string: literal prefixes each followed by an
/// accessor, then a literal postfix.
pub ghost struct InterpolationModel {
    pub segments: Seq<(Seq<char>, AccessorModel)>,
    pub postfix: Seq<char>,
}

/// A literal prefix and the accessor that follows it.
#[derive(Debug)]
pub struct SpannedInterpolatorSegment {
    pub prefix: String,
    pub accessor: SpannedAccessor,
}

impl SpannedInterpolatorSegment {
    pub open spec fn view(&self) -> (Seq<char>, AccessorModel) {
        (self.prefix@, self.accessor@)
    }
}

/// A string split into segments, each a literal prefix and an accessor, and
/// the literal text after the last accessor.
#[derive(Debug)]
pub struct SpannedStringInterpolator {
    pub segments: Vec<SpannedInterpolatorSegment>,
    pub postfix: String,
}

impl SpannedStringInterpolator {
    pub open spec fn view(&self) -> InterpolationModel {
        InterpolationModel {
            segments: self.segments@.map_values(|g: SpannedInterpolatorSegment| g@),
            postfix: self.postfix@,
        }
    }
}

/// A literal prefix and the accessor that follows it, without spans.
#[derive(Debug)]
pub struct InterpolatorSegment {
    pub prefix: String,
    pub accessor: Accessor,
}

/// An interpolated string without spans.
#[derive(Debug)]
pub struct StringInterpolator {
    pub segments: Vec<InterpolatorSegment>,
    pub postfix: String,
}

impl InterpolatorSegment {
    pub open spec fn view(&self) -> (Seq<char>, Seq<KeyValue>) {
        (self.prefix@, self.accessor@)
    }
}

impl StringInterpolator {
    pub open spec fn view(&self) -> (Seq<(Seq<char>, Seq<KeyValue>)>, Seq<char>) {
        (self.segments@.map_values(|g: InterpolatorSegment| g@), self.postfix@)
    }
}

impl SpannedInterpolatorSegment {
    /// The same segment without spans.
    pub fn into_segment(self) -> (r: InterpolatorSegment)
        ensures
            r@ == (self@.0, key_values(self@.1.keys)),
    {
        InterpolatorSegment { prefix: self.prefix, accessor: self.accessor.into_accessor() }
    }
}

impl SpannedStringInterpolator {
    /// The same segments and postfix without spans.
    pub fn into_interpolator(self) -> (r: StringInterpolator)
        ensures
            r@.1 == self@.postfix,
            r@.0.len() == self@.segments.len(),
            forall|k: int| 0 <= k < r@.0.len() ==> #[trigger] r@.0[k] == (self@.segments[k].0, key_values(self@.segments[k].1.keys)),
    {
        let ghost src = self@.segments;
        let mut segments: Vec<InterpolatorSegment> = Vec::new();
        let mut rest = self.segments;
        let mut taken: Vec<SpannedInterpolatorSegment> = Vec::new();
        let n = rest.len();
        // Take the segments from the back so that each is moved out once.
        while rest.len() > 0
            invariant
                rest@.len() + taken@.len() == n,
                n == src.len(),
                forall|k: int| 0 <= k < rest@.len() ==> #[trigger] rest@[k]@ == src[k],
                forall|k: int| 0 <= k < taken@.len() ==> #[trigger] taken@[k]@ == src[n - 1 - k],
            decreases rest@.len(),
        {
            let g = rest.pop().unwrap();
            taken.push(g);
        }
        while taken.len() > 0
            invariant
                segments@.len() + taken@.len() == n,
                n == src.len(),
                forall|k: int| 0 <= k < taken@.len() ==> #[trigger] taken@[k]@ == src[n - 1 - k],
                forall|k: int| 0 <= k < segments@.len() ==> #[trigger] segments@[k]@ == (src[k].0, key_values(src[k].1.keys)),
            decreases taken@.len(),
        {
            let g = taken.pop().unwrap();
            segments.push(g.into_segment());
        }
        StringInterpolator { segments, postfix: self.postfix }
    }
}

impl From<SpannedInterpolatorSegment> for InterpolatorSegment {
    fn from(value: SpannedInterpolatorSegment) -> (r: Self)
        ensures
            r@ == (value@.0, key_values(value@.1.keys)),
    {
        value.into_segment()
    }
}

/// The result of `from` holds `String`s, which no spec function can build:
/// `from` states its result in its own `ensures` instead.
impl vstd::std_specs::convert::FromSpecImpl<SpannedInterpolatorSegment> for InterpolatorSegment {
    open spec fn obeys_from_spec() -> bool {
        false
    }

    open spec fn from_spec(v: SpannedInterpolatorSegment) -> Self {
        vstd::pervasive::arbitrary()
    }
}

impl From<SpannedStringInterpolator> for StringInterpolator {
    fn from(value: SpannedStringInterpolator) -> (r: Self)
        ensures
            r@.1 == value@.postfix,
            r@.0.len() == value@.segments.len(),
            forall|k: int| 0 <= k < r@.0.len() ==> #[trigger] r@.0[k] == (value@.segments[k].0, key_values(value@.segments[k].1.keys)),
    {
        value.into_interpolator()
    }
}

/// The result of `from` holds `String`s, which no spec function can build:
/// `from` states its result in its own `ensures` instead.
impl vstd::std_specs::convert::FromSpecImpl<SpannedStringInterpolator> for StringInterpolator {
    open spec fn obeys_from_spec() -> bool {
        false
    }

    open spec fn from_spec(v: SpannedStringInterpolator) -> Self {
        vstd::pervasive::arbitrary()
    }
}

/// Characters that end a literal run: the `$` that opens an accessor.
pub open spec fn dollar() -> Seq<char> {
    seq!['$']
}

/// The segments and postfix of the text from `p` on.
pub open spec fn interpolation_at(s: Seq<char>, p: int) -> Result<InterpolationModel, AccessorParserError>
    decreases s.len() - p,
{
    if p < 0 || p > s.len() {
        Ok(InterpolationModel { segments: Seq::empty(), postfix: Seq::empty() })
    } else {
        match scan(s, p, dollar(), dollar()) {
            Err(e) => Err(e),
            Ok((e, prefix)) => if e >= s.len() {
                Ok(InterpolationModel { segments: Seq::empty(), postfix: prefix })
            } else {
                match accessor_at(s, e) {
                    Err(x) => Err(x),
                    Ok((q, a)) => {
                        proof {
                            lemma_scan_bounds(s, p, dollar(), dollar());
                            lemma_accessor_advances(s, e);
                        }
                        match interpolation_at(s, q) {
                            Ok(m) => Ok(
                                InterpolationModel {
                                    segments: seq![(prefix, a)] + m.segments,
                                    postfix: m.postfix,
                                },
                            ),
                            Err(x) => Err(x),
                        }
                    },
                }
            },
        }
    }
}

fn dollar_chars() -> (r: [char; 1])
    ensures
        r@ == dollar(),
{
    let r = ['$'];
    assert(r@ =~= dollar());
    r
}

/// Splits `text` into literal prefixes, each followed by an accessor, and a
/// final literal postfix. The first malformed accessor or escape fails the
/// whole text.
pub fn take_spanned_string_interpolator(text: &str) -> (r: Result<SpannedStringInterpolator, AccessorParserError>)
    requires
        text@.len() < usize::MAX,
    ensures
        r matches Ok(i) ==> interpolation_at(text@, 0) == Ok::<InterpolationModel, AccessorParserError>(i@),
        r matches Err(e) ==> interpolation_at(text@, 0) == Err::<InterpolationModel, AccessorParserError>(e),
{
    let input = to_chars(text);
    let stop = dollar_chars();
    let mut segments: Vec<SpannedInterpolatorSegment> = Vec::new();
    let mut p: usize = 0;
    loop
        invariant
            p <= input@.len() < usize::MAX,
            input@ == text@,
            stop@ == dollar(),
            interpolation_at(input@, 0) == (match interpolation_at(input@, p as int) {
                Ok(m) => Ok::<InterpolationModel, AccessorParserError>(
                    InterpolationModel {
                        segments: segments@.map_values(|g: SpannedInterpolatorSegment| g@) + m.segments,
                        postfix: m.postfix,
                    },
                ),
                Err(x) => Err(x),
            }),
        decreases input@.len() - p,
    {
        let (e, prefix) = match take_string_with_escape_until(&input, p, &stop, &stop) {
            Ok(x) => x,
            Err(x) => {
                return Err(x);
            },
        };
        proof {
            lemma_scan_bounds(input@, p as int, dollar(), dollar());
        }
        if e >= input.len() {
            let r = SpannedStringInterpolator { segments, postfix: prefix };
            assert(r@.segments =~= segments@.map_values(|g: SpannedInterpolatorSegment| g@) + Seq::empty());
            return Ok(r);
        }
        let (q, accessor) = match take_spanned_accessor(&input, e) {
            Ok(x) => x,
            Err(x) => {
                return Err(x);
            },
        };
        proof {
            lemma_accessor_advances(input@, e as int);
        }
        let segment = SpannedInterpolatorSegment { prefix, accessor };
        proof {
            let old_views = segments@.map_values(|g: SpannedInterpolatorSegment| g@);
            assert(segments@.push(segment).map_values(|g: SpannedInterpolatorSegment| g@) =~= old_views.push(segment@));
            match interpolation_at(input@, q as int) {
                Ok(m) => {
                    assert(old_views.push(segment@) + m.segments =~= old_views + (seq![segment@] + m.segments));
                },
                Err(_) => {},
            }
        }
        segments.push(segment);
        p = q;
    }
}

} // verus!
