//! The transform pipeline: single field selections with a jq-style
//! textual syntax, applied left to right.

use crate::json_value::{object_lookup, JsonValue, ValueModel};
use vstd::prelude::*;

verus! {

/// One pipeline step.  `SelectField(name)` projects the named field out
/// of a JSON object.
#[derive(Debug, PartialEq, Eq)]
pub enum Transform {
    SelectField(String),
}

impl View for Transform {
    type V = Seq<char>;

    /// The model of a transform is its field name.
    open spec fn view(&self) -> Seq<char> {
        match self {
            Transform::SelectField(f) => f@,
        }
    }
}

impl Clone for Transform {
    /// A copy with the same model.
    fn clone(&self) -> (out: Self)
        ensures
            out@ == self@,
    {
        match self {
            Transform::SelectField(f) => Transform::SelectField(f.clone()),
        }
    }
}

/// The error text for a selection from a value that is not an object.
pub open spec fn not_object_msg() -> Seq<char> {
    "Cannot select field from non-object {value}"@
}

/// The error text for a missing field.
pub open spec fn field_not_found_msg(key: Seq<char>) -> Seq<char> {
    "Field '"@ + key + "' not found"@
}

/// What selecting `key` from `v` yields: the first entry under that key
/// of an object, an error otherwise.
pub open spec fn select_model(key: Seq<char>, v: ValueModel) -> Result<ValueModel, Seq<char>> {
    match v {
        ValueModel::Object(entries) => match object_lookup(entries, key) {
            Option::Some(x) => Result::Ok(x),
            Option::None => Result::Err(field_not_found_msg(key)),
        },
        _ => Result::Err(not_object_msg()),
    }
}

/// The textual form of a transform: a dot followed by the field name.
pub open spec fn render_model(field: Seq<char>) -> Seq<char> {
    "."@ + field
}

/// A white-space code point, the set the standard library's trim
/// removes.
pub open spec fn is_space(c: char) -> bool {
    let u = c as int;
    u == 0x9 || u == 0xA || u == 0xB || u == 0xC || u == 0xD || u == 0x20 || u == 0x85
        || u == 0xA0 || u == 0x1680 || (0x2000 <= u <= 0x200A) || u == 0x2028 || u == 0x2029
        || u == 0x202F || u == 0x205F || u == 0x3000
}

/// The text with leading white space removed.
pub open spec fn trim_front(s: Seq<char>) -> Seq<char>
    decreases s.len(),
{
    if s.len() > 0 && is_space(s[0]) {
        trim_front(s.subrange(1, s.len() as int))
    } else {
        s
    }
}

/// The text with trailing white space removed.
pub open spec fn trim_back(s: Seq<char>) -> Seq<char>
    decreases s.len(),
{
    if s.len() > 0 && is_space(s[s.len() - 1]) {
        trim_back(s.subrange(0, s.len() - 1))
    } else {
        s
    }
}

/// The text with white space removed from both ends.
pub open spec fn trim_model(s: Seq<char>) -> Seq<char> {
    trim_back(trim_front(s))
}

/// The error text for a transform without the leading dot.
pub open spec fn missing_dot_msg() -> Seq<char> {
    "Transform must start with '.'"@
}

/// The error text for a transform with nothing after the dot.
pub open spec fn empty_field_msg() -> Seq<char> {
    "Field name cannot be empty"@
}

/// What parsing transform text yields: the field name following the
/// leading dot of the trimmed text, or the error that says which part
/// of the shape is missing.
pub open spec fn parse_model(s: Seq<char>) -> Result<Seq<char>, Seq<char>> {
    let t = trim_model(s);
    if t.len() == 0 || t[0] != '.' {
        Result::Err(missing_dot_msg())
    } else if t.len() == 1 {
        Result::Err(empty_field_msg())
    } else {
        Result::Ok(t.subrange(1, t.len() as int))
    }
}

/// The first entry under `key` sits at `idx`.
proof fn lemma_object_lookup_at(
    entries: Seq<(Seq<char>, ValueModel)>,
    key: Seq<char>,
    idx: int,
)
    requires
        0 <= idx <= entries.len(),
        forall|m: int| 0 <= m < idx ==> #[trigger] entries[m].0 != key,
    ensures
        idx < entries.len() && entries[idx].0 == key
            ==> object_lookup(entries, key) == Option::Some(entries[idx].1),
        idx == entries.len() ==> object_lookup(entries, key) is None,
    decreases idx,
{
    if idx > 0 {
        let tail = entries.subrange(1, entries.len() as int);
        assert(forall|i: int| 0 <= i < tail.len() ==> tail[i] == entries[i + 1]);
        lemma_object_lookup_at(tail, key, idx - 1);
    }
}

impl Transform {
    /// Apply the transform to a value: for `SelectField`, a copy of the
    /// named field of an object, or the error the specification names.
    #[verifier::loop_isolation(false)]
    pub fn apply(&self, value: &JsonValue) -> (out: Result<JsonValue, String>)
        ensures
            (out is Ok) == (select_model(self@, value@) is Ok),
            out is Ok ==> out->Ok_0@ == select_model(self@, value@)->Ok_0,
            out is Err ==> out->Err_0@ == select_model(self@, value@)->Err_0,
    {
        match self {
            Transform::SelectField(field) => match value {
                JsonValue::Object(entries) => {
                    let ghost em = crate::json_value::entries_model(entries@);
                    proof {
                        crate::json_value::lemma_entries_model(entries@);
                    }
                    let mut i: usize = 0;
                    while i < entries.len()
                        invariant
                            i <= entries@.len(),
                            forall|m: int| 0 <= m < i ==> #[trigger] em[m].0 != field@,
                        decreases entries@.len() - i,
                    {
                        if entries[i].0.eq(field) {
                            proof {
                                lemma_object_lookup_at(em, field@, i as int);
                            }
                            return Result::Ok(entries[i].1.clone());
                        }
                        i += 1;
                    }
                    proof {
                        lemma_object_lookup_at(em, field@, entries@.len() as int);
                    }
                    let mut msg = "Field '".to_owned();
                    msg.append(field.as_str());
                    msg.append("' not found");
                    Result::Err(msg)
                }
                _ => Result::Err("Cannot select field from non-object {value}".to_owned()),
            },
        }
    }

    /// The textual form of the transform: `.name`.
    pub fn to_jq(&self) -> (out: String)
        ensures
            out@ == render_model(self@),
    {
        match self {
            Transform::SelectField(field) => {
                let mut s = ".".to_owned();
                s.append(field.as_str());
                s
            }
        }
    }

    /// Parse one transform from its textual form: the trimmed text must
    /// be a dot followed by a non-empty field name.
    #[verifier::loop_isolation(false)]
    pub fn from_jq(s: &str) -> (out: Result<Transform, String>)
        ensures
            (out is Ok) == (parse_model(s@) is Ok),
            out is Ok ==> out->Ok_0@ == parse_model(s@)->Ok_0,
            out is Err ==> out->Err_0@ == parse_model(s@)->Err_0,
    {
        let len = s.unicode_len();
        let mut start: usize = 0;
        let mut fstop = false;
        while !fstop && start < len
            invariant
                start <= len,
                forall|m: int| 0 <= m < start ==> is_space(#[trigger] s@[m]),
                fstop ==> start < len && !is_space(s@[start as int]),
            decreases len - start + (if fstop { 0int } else { 1int }),
        {
            if is_space_char(s.get_char(start)) {
                start += 1;
            } else {
                fstop = true;
            }
        }
        let mut end: usize = len;
        let mut bstop = false;
        while !bstop && end > start
            invariant
                start <= end <= len,
                forall|m: int| end <= m < len ==> is_space(#[trigger] s@[m]),
                bstop ==> end > start && !is_space(s@[end - 1]),
            decreases end - start + (if bstop { 0int } else { 1int }),
        {
            if is_space_char(s.get_char(end - 1)) {
                end -= 1;
            } else {
                bstop = true;
            }
        }
        proof {
            if start < len {
                assert(!is_space(s@[start as int]));
            }
            if end > start {
                assert(!is_space(s@[end - 1]));
            }
            lemma_trim_range(s@, start as int, end as int);
        }
        let ghost t = trim_model(s@);
        if start == end {
            proof {
                assert(t =~= Seq::<char>::empty());
            }
            Result::Err("Transform must start with '.'".to_owned())
        } else {
            let first = s.get_char(start);
            proof {
                assert(t[0] == s@[start as int]);
            }
            if first != '.' {
                Result::Err("Transform must start with '.'".to_owned())
            } else if start + 1 == end {
                Result::Err("Field name cannot be empty".to_owned())
            } else {
                let field = s.substring_char(start + 1, end);
                proof {
                    assert(field@ =~= t.subrange(1, t.len() as int));
                }
                Result::Ok(Transform::SelectField(field.to_owned()))
            }
        }
    }
}

/// Whether a character is white space, as a value.
fn is_space_char(c: char) -> (r: bool)
    ensures
        r == is_space(c),
{
    let u = c as u32;
    u == 0x9 || u == 0xA || u == 0xB || u == 0xC || u == 0xD || u == 0x20 || u == 0x85
        || u == 0xA0 || u == 0x1680 || (0x2000 <= u && u <= 0x200A) || u == 0x2028 || u == 0x2029
        || u == 0x202F || u == 0x205F || u == 0x3000
}

/// Dropping leading spaces up to the first non-space leaves the suffix.
proof fn lemma_trim_front_at(s: Seq<char>, k: int)
    requires
        0 <= k <= s.len(),
        forall|m: int| 0 <= m < k ==> is_space(#[trigger] s[m]),
        k < s.len() ==> !is_space(s[k]),
    ensures
        trim_front(s) == s.subrange(k, s.len() as int),
    decreases k,
{
    if k == 0 {
        assert(s.subrange(0, s.len() as int) =~= s);
    } else {
        let tail = s.subrange(1, s.len() as int);
        assert(forall|i: int| 0 <= i < tail.len() ==> tail[i] == s[i + 1]);
        lemma_trim_front_at(tail, k - 1);
        assert(tail.subrange(k - 1, tail.len() as int) =~= s.subrange(k, s.len() as int));
    }
}

/// Dropping trailing spaces down to the last non-space leaves the prefix.
proof fn lemma_trim_back_at(s: Seq<char>, k: int)
    requires
        0 <= k <= s.len(),
        forall|m: int| k <= m < s.len() ==> is_space(#[trigger] s[m]),
        k > 0 ==> !is_space(s[k - 1]),
    ensures
        trim_back(s) == s.subrange(0, k),
    decreases s.len(),
{
    if k == s.len() {
        assert(s.subrange(0, s.len() as int) =~= s);
    } else {
        let head = s.subrange(0, s.len() - 1);
        assert(forall|i: int| 0 <= i < head.len() ==> head[i] == s[i]);
        lemma_trim_back_at(head, k);
        assert(head.subrange(0, k) =~= s.subrange(0, k));
    }
}

/// The trimmed text is the subrange between the scanned bounds.
proof fn lemma_trim_range(s: Seq<char>, start: int, end: int)
    requires
        0 <= start <= end <= s.len(),
        forall|m: int| 0 <= m < start ==> is_space(#[trigger] s[m]),
        forall|m: int| end <= m < s.len() ==> is_space(#[trigger] s[m]),
        start < s.len() ==> !is_space(s[start]),
        start < end ==> !is_space(s[end - 1]),
    ensures
        trim_model(s) == s.subrange(start, end),
{
    if start == end && start < s.len() {
        assert(is_space(s[start]) && !is_space(s[start]));
    }
    lemma_trim_front_at(s, start);
    let t1 = s.subrange(start, s.len() as int);
    assert(forall|i: int| 0 <= i < t1.len() ==> t1[i] == s[start + i]);
    lemma_trim_back_at(t1, end - start);
    assert(t1.subrange(0, end - start) =~= s.subrange(start, end));
}

/// What applying a list of field selections in order yields: the value
/// threaded through every step, or the first error.
pub open spec fn pipeline_apply_model(
    fields: Seq<Seq<char>>,
    v: ValueModel,
) -> Result<ValueModel, Seq<char>>
    decreases fields.len(),
{
    if fields.len() == 0 {
        Result::Ok(v)
    } else {
        match select_model(fields[0], v) {
            Result::Ok(x) => pipeline_apply_model(fields.subrange(1, fields.len() as int), x),
            Result::Err(e) => Result::Err(e),
        }
    }
}

/// The textual form of a pipeline: `.` when empty, otherwise the
/// rendered steps joined by `" | "`.
pub open spec fn pipeline_text(fields: Seq<Seq<char>>) -> Seq<char>
    decreases fields.len(),
{
    if fields.len() == 0 {
        "."@
    } else if fields.len() == 1 {
        render_model(fields[0])
    } else {
        pipeline_text(fields.drop_last()) + " | "@ + render_model(fields.last())
    }
}

/// An ordered sequence of transforms, applied left to right; the empty
/// pipeline is the identity.
pub struct TransformPipeline {
    pub transforms: Vec<Transform>,
}

/// The models of a transform list: the selected field names in order.
pub open spec fn transforms_model(ts: Seq<Transform>) -> Seq<Seq<char>>
    decreases ts,
{
    if ts.len() == 0 {
        Seq::empty()
    } else {
        seq![ts[0]@] + transforms_model(ts.subrange(1, ts.len() as int))
    }
}

/// `transforms_model` maps the list elementwise.
pub proof fn lemma_transforms_model(ts: Seq<Transform>)
    ensures
        transforms_model(ts).len() == ts.len(),
        forall|i: int| 0 <= i < ts.len()
            ==> #[trigger] transforms_model(ts)[i] == ts[i]@,
    decreases ts.len(),
{
    if ts.len() > 0 {
        lemma_transforms_model(ts.subrange(1, ts.len() as int));
    }
}

impl View for TransformPipeline {
    type V = Seq<Seq<char>>;

    /// The model of a pipeline is its list of field names.
    open spec fn view(&self) -> Seq<Seq<char>> {
        transforms_model(self.transforms@)
    }
}

impl Clone for TransformPipeline {
    /// A copy with the same model.
    #[verifier::loop_isolation(false)]
    fn clone(&self) -> (out: Self)
        ensures
            out@ == self@,
    {
        let mut ts: Vec<Transform> = Vec::new();
        let mut i: usize = 0;
        while i < self.transforms.len()
            invariant
                i <= self.transforms@.len(),
                ts@.len() == i as int,
                forall|k: int| 0 <= k < i as int ==> #[trigger] ts@[k]@ == self.transforms@[k]@,
            decreases self.transforms@.len() - i,
        {
            let t = self.transforms[i].clone();
            ts.push(t);
            i += 1;
        }
        proof {
            lemma_transforms_model(ts@);
            lemma_transforms_model(self.transforms@);
            assert(transforms_model(ts@) =~= transforms_model(self.transforms@));
        }
        TransformPipeline { transforms: ts }
    }
}

impl TransformPipeline {
    /// The empty pipeline.
    pub fn new() -> (out: Self)
        ensures
            out@ == Seq::<Seq<char>>::empty(),
    {
        let out = TransformPipeline { transforms: Vec::new() };
        proof {
            assert(out@ =~= Seq::<Seq<char>>::empty());
        }
        out
    }

    /// Append one transform at the end.
    pub fn add(&mut self, transform: Transform)
        ensures
            final(self)@ == old(self)@.push(transform@),
    {
        let ghost t0 = self.transforms@;
        self.transforms.push(transform);
        proof {
            lemma_transforms_model(self.transforms@);
            lemma_transforms_model(t0);
            assert(transforms_model(self.transforms@) =~= transforms_model(t0).push(transform@));
        }
    }

    /// Thread the value through every step in order; the first failing
    /// step aborts the pipeline with its error.
    #[verifier::loop_isolation(false)]
    pub fn apply(&self, value: JsonValue) -> (out: Result<JsonValue, String>)
        ensures
            (out is Ok) == (pipeline_apply_model(self@, value@) is Ok),
            out is Ok ==> out->Ok_0@ == pipeline_apply_model(self@, value@)->Ok_0,
            out is Err ==> out->Err_0@ == pipeline_apply_model(self@, value@)->Err_0,
    {
        let ghost fields = self@;
        let ghost v0 = value@;
        proof {
            lemma_transforms_model(self.transforms@);
            assert(fields.subrange(0, fields.len() as int) =~= fields);
        }
        let mut value = value;
        let mut i: usize = 0;
        while i < self.transforms.len()
            invariant
                i <= self.transforms@.len(),
                pipeline_apply_model(fields, v0) == pipeline_apply_model(
                    fields.subrange(i as int, fields.len() as int),
                    value@,
                ),
            decreases self.transforms@.len() - i,
        {
            let ghost rest = fields.subrange(i as int, fields.len() as int);
            proof {
                assert(rest[0] == fields[i as int]);
                assert(rest.subrange(1, rest.len() as int)
                    =~= fields.subrange(i + 1, fields.len() as int));
            }
            match self.transforms[i].apply(&value) {
                Result::Ok(next) => {
                    value = next;
                }
                Result::Err(e) => {
                    return Result::Err(e);
                }
            }
            i += 1;
        }
        proof {
            assert(fields.subrange(fields.len() as int, fields.len() as int)
                =~= Seq::<Seq<char>>::empty());
        }
        Result::Ok(value)
    }

    /// The textual form of the pipeline.
    #[verifier::loop_isolation(false)]
    pub fn to_jq(&self) -> (out: String)
        ensures
            out@ == pipeline_text(self@),
    {
        let ghost fields = self@;
        proof {
            lemma_transforms_model(self.transforms@);
        }
        if self.transforms.len() == 0 {
            return ".".to_owned();
        }
        let mut s = self.transforms[0].to_jq();
        let mut i: usize = 1;
        proof {
            assert(fields.subrange(0, 1) =~= seq![fields[0]]);
            assert(pipeline_text(fields.subrange(0, 1)) == render_model(fields[0]));
        }
        while i < self.transforms.len()
            invariant
                1 <= i <= self.transforms@.len(),
                s@ == pipeline_text(fields.subrange(0, i as int)),
            decreases self.transforms@.len() - i,
        {
            let step = self.transforms[i].to_jq();
            s.append(" | ");
            s.append(step.as_str());
            proof {
                let next = fields.subrange(0, i + 1);
                assert(next.drop_last() =~= fields.subrange(0, i as int));
                assert(next.last() == fields[i as int]);
            }
            i += 1;
        }
        proof {
            assert(fields.subrange(0, fields.len() as int) =~= fields);
        }
        s
    }
}

/// Law: parsing the rendering of a transform gives the transform back,
/// for every field name that the textual form can carry (a non-empty
/// name whose last character is not white space).
pub proof fn lemma_parse_render_roundtrip(t: Transform)
    requires
        t@.len() > 0,
        !is_space(t@[t@.len() - 1]),
    ensures
        parse_model(render_model(t@)) == Result::<Seq<char>, Seq<char>>::Ok(t@),
{
    let field = t@;
    let s = render_model(field);
    reveal_strlit(".");
    assert(s.len() == field.len() + 1);
    assert(s[0] == '.');
    assert(!is_space('.'));
    assert(forall|m: int| 0 <= m < s.len() ==> s[m] == if m == 0 { '.' } else { field[m - 1] });
    assert(!is_space(s[s.len() - 1]));
    lemma_trim_range(s, 0, s.len() as int);
    assert(trim_model(s) =~= s);
    assert(s.subrange(1, s.len() as int) =~= field);
}

/// Law: the empty pipeline is the identity transform and renders as the
/// identity filter `.`.
pub proof fn lemma_empty_pipeline_identity(v: ValueModel)
    ensures
        pipeline_apply_model(Seq::<Seq<char>>::empty(), v)
            == Result::<ValueModel, Seq<char>>::Ok(v),
        pipeline_text(Seq::<Seq<char>>::empty()) == "."@,
{
}

} // verus!
