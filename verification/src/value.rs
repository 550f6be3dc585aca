use vstd::prelude::*;
use crate::lexer::push_char;
use crate::table::Modeled;
use crate::parser::strings_view;

verus! {

/// A value computed by a program.
///
/// A number is held as the bit pattern of an IEEE 754 double; the library
/// never computes with it itself (see `Action`).
#[derive(Debug)]
pub enum Value {
    Number(u64),
    Text(String),
    List(Vec<Value>),
    Null,
}

/// The model of a `Value`.
pub enum SpecValue {
    Number(u64),
    Text(Seq<char>),
    List(Seq<SpecValue>),
    Null,
}

impl Value {
    pub open spec fn model(&self) -> SpecValue
        decreases self, 0nat,
    {
        match self {
            Value::Number(n) => SpecValue::Number(*n),
            Value::Text(s) => SpecValue::Text(s@),
            Value::List(items) => SpecValue::List(values_model(items@)),
            Value::Null => SpecValue::Null,
        }
    }

    /// A copy of this value.
    pub fn duplicate(&self) -> (r: Value)
        ensures
            r.model() == self.model(),
        decreases self,
    {
        match self {
            Value::Number(n) => Value::Number(*n),
            Value::Text(s) => Value::Text(s.clone()),
            Value::List(items) => Value::List(duplicate_values(items)),
            Value::Null => Value::Null,
        }
    }
}

impl Clone for Value {
    fn clone(&self) -> (r: Value)
        ensures
            r.model() == self.model(),
    {
        self.duplicate()
    }
}

/// The models of a sequence of values.
pub open spec fn values_model(s: Seq<Value>) -> Seq<SpecValue>
    decreases s, 1nat,
{
    if s.len() == 0 {
        Seq::empty()
    } else {
        seq![s[0].model()] + values_model(s.subrange(1, s.len() as int))
    }
}

pub proof fn lemma_values_model(s: Seq<Value>)
    ensures
        values_model(s).len() == s.len(),
        forall|i: int| 0 <= i < s.len() ==> #[trigger] values_model(s)[i] == s[i].model(),
    decreases s.len(),
{
    if s.len() > 0 {
        lemma_values_model(s.subrange(1, s.len() as int));
        assert forall|i: int| 0 <= i < s.len() implies #[trigger] values_model(s)[i] == s[i].model() by {
            if i > 0 {
                assert(s.subrange(1, s.len() as int)[i - 1] == s[i]);
            }
        }
    }
}

pub proof fn lemma_values_model_push(s: Seq<Value>, v: Value)
    ensures
        values_model(s.push(v)) == values_model(s).push(v.model()),
{
    lemma_values_model(s);
    lemma_values_model(s.push(v));
    assert(values_model(s.push(v)) =~= values_model(s).push(v.model()));
}

/// A copy of a list of values.
pub fn duplicate_values(v: &Vec<Value>) -> (r: Vec<Value>)
    ensures
        values_model(r@) == values_model(v@),
    decreases v,
{
    let mut r: Vec<Value> = Vec::new();
    let mut i: usize = 0;
    proof {
        lemma_values_model(v@);
    }
    while i < v.len()
        invariant
            i <= v@.len(),
            values_model(r@) == values_model(v@.take(i as int)),
            values_model(v@).len() == v@.len(),
            forall|k: int| 0 <= k < v@.len() ==> #[trigger] values_model(v@)[k] == v@[k].model(),
        decreases v@.len() - i,
    {
        assert(decreases_to!(v => v@[i as int]));
        let e = v[i].duplicate();
        proof {
            lemma_values_model_push(r@, e);
            lemma_values_model(v@.take(i as int));
            lemma_values_model(v@.take(i + 1));
            assert(values_model(v@.take(i + 1)) =~= values_model(v@.take(i as int)).push(v@[i as int].model()));
        }
        r.push(e);
        i += 1;
    }
    assert(v@.take(i as int) =~= v@);
    r
}

impl Modeled for Value {
    type Model = SpecValue;

    open spec fn modeled(&self) -> SpecValue {
        self.model()
    }

    fn duplicate_item(&self) -> (r: Value) {
        self.duplicate()
    }
}

// ---------------------------------------------------------------------------
// Lists
// ---------------------------------------------------------------------------

/// Whether a value that is not a number counts as true: a nonempty text or list.
pub open spec fn truthy(v: SpecValue) -> bool {
    match v {
        SpecValue::Text(s) => s.len() > 0,
        SpecValue::List(items) => items.len() > 0,
        _ => false,
    }
}

/// The items of a list that are not the text `t`.
pub open spec fn without_text(items: Seq<SpecValue>, t: Seq<char>) -> Seq<SpecValue>
    decreases items.len(),
{
    if items.len() == 0 {
        Seq::empty()
    } else {
        let rest = without_text(items.drop_last(), t);
        if items.last() == SpecValue::Text(t) {
            rest
        } else {
            rest.push(items.last())
        }
    }
}

/// The bit patterns of the numbers in a list, in order.
pub open spec fn number_bits(items: Seq<SpecValue>) -> Seq<u64>
    decreases items.len(),
{
    if items.len() == 0 {
        Seq::empty()
    } else {
        let rest = number_bits(items.drop_last());
        match items.last() {
            SpecValue::Number(n) => rest.push(n),
            _ => rest,
        }
    }
}

/// The items of a list without the numbers whose flag (by their order among
/// the numbers) is set.
pub open spec fn without_matches(items: Seq<SpecValue>, flags: Seq<bool>) -> Seq<SpecValue>
    decreases items.len(),
{
    if items.len() == 0 {
        Seq::empty()
    } else {
        let init = items.drop_last();
        let rest = without_matches(init, flags);
        let k = number_bits(init).len();
        if items.last() is Number && k < flags.len() && flags[k as int] {
            rest
        } else {
            rest.push(items.last())
        }
    }
}

/// The items of `items` that are not the text `t`.
pub fn remove_text(items: &Vec<Value>, t: &String) -> (r: Vec<Value>)
    ensures
        values_model(r@) == without_text(values_model(items@), t@),
{
    let ghost im = values_model(items@);
    proof {
        lemma_values_model(items@);
    }
    let mut r: Vec<Value> = Vec::new();
    let mut i: usize = 0;
    assert(im.take(0) =~= Seq::<SpecValue>::empty());
    while i < items.len()
        invariant
            i <= items@.len(),
            im == values_model(items@),
            im.len() == items@.len(),
            forall|k: int| 0 <= k < items@.len() ==> #[trigger] im[k] == items@[k].model(),
            values_model(r@) == without_text(im.take(i as int), t@),
        decreases items@.len() - i,
    {
        let ghost prefix = im.take(i + 1);
        assert(prefix.drop_last() =~= im.take(i as int));
        assert(prefix.last() == items@[i as int].model());
        let matches = match &items[i] {
            Value::Text(a) => *a == *t,
            _ => false,
        };
        assert(matches == (prefix.last() == SpecValue::Text(t@)));
        if !matches {
            let x = items[i].duplicate();
            proof {
                lemma_values_model_push(r@, x);
            }
            r.push(x);
        }
        i += 1;
    }
    assert(im.take(i as int) =~= im);
    r
}

/// The bit patterns of the numbers in `items`, in order.
pub fn numbers_of(items: &Vec<Value>) -> (r: Vec<u64>)
    ensures
        r@ == number_bits(values_model(items@)),
{
    let ghost im = values_model(items@);
    proof {
        lemma_values_model(items@);
    }
    let mut r: Vec<u64> = Vec::new();
    let mut i: usize = 0;
    assert(im.take(0) =~= Seq::<SpecValue>::empty());
    while i < items.len()
        invariant
            i <= items@.len(),
            im == values_model(items@),
            im.len() == items@.len(),
            forall|k: int| 0 <= k < items@.len() ==> #[trigger] im[k] == items@[k].model(),
            r@ == number_bits(im.take(i as int)),
        decreases items@.len() - i,
    {
        let ghost prefix = im.take(i + 1);
        assert(prefix.drop_last() =~= im.take(i as int));
        assert(prefix.last() == items@[i as int].model());
        match &items[i] {
            Value::Number(n) => r.push(*n),
            _ => {},
        }
        i += 1;
    }
    assert(im.take(i as int) =~= im);
    r
}

/// The items of `items` without the numbers whose flag is set.
pub fn remove_matches(items: &Vec<Value>, flags: &Vec<bool>) -> (r: Vec<Value>)
    ensures
        values_model(r@) == without_matches(values_model(items@), flags@),
{
    let ghost im = values_model(items@);
    proof {
        lemma_values_model(items@);
    }
    let mut r: Vec<Value> = Vec::new();
    let mut i: usize = 0;
    let mut k: usize = 0;
    assert(im.take(0) =~= Seq::<SpecValue>::empty());
    while i < items.len()
        invariant
            i <= items@.len(),
            im == values_model(items@),
            im.len() == items@.len(),
            forall|j: int| 0 <= j < items@.len() ==> #[trigger] im[j] == items@[j].model(),
            values_model(r@) == without_matches(im.take(i as int), flags@),
            k == number_bits(im.take(i as int)).len(),
            k <= i,
        decreases items@.len() - i,
    {
        let ghost prefix = im.take(i + 1);
        assert(prefix.drop_last() =~= im.take(i as int));
        assert(prefix.last() == items@[i as int].model());
        let is_number = match &items[i] {
            Value::Number(_) => true,
            _ => false,
        };
        let flagged = is_number && k < flags.len() && flags[k];
        if !flagged {
            let x = items[i].duplicate();
            proof {
                lemma_values_model_push(r@, x);
            }
            r.push(x);
        }
        if is_number {
            k += 1;
        }
        i += 1;
    }
    assert(im.take(i as int) =~= im);
    r
}

// ---------------------------------------------------------------------------
// Showing values
// ---------------------------------------------------------------------------

/// The numbers in a value, in the order they are shown (lists are flattened).
pub open spec fn flat_numbers(v: SpecValue) -> Seq<u64>
    decreases v, 0nat,
{
    match v {
        SpecValue::Number(n) => seq![n],
        SpecValue::List(items) => flat_numbers_list(items),
        _ => Seq::empty(),
    }
}

pub open spec fn flat_numbers_list(items: Seq<SpecValue>) -> Seq<u64>
    decreases items, 1nat,
{
    if items.len() == 0 {
        Seq::empty()
    } else {
        flat_numbers(items[0]) + flat_numbers_list(items.subrange(1, items.len() as int))
    }
}

/// The text at `k`, or the empty text when there is none.
pub open spec fn text_at(texts: Seq<Seq<char>>, k: int) -> Seq<char> {
    if 0 <= k < texts.len() {
        texts[k]
    } else {
        Seq::empty()
    }
}

/// The text that shows `v`: a text as it is, `null` for null, the items of a
/// list joined by `, `, and for the numbers the texts from `k` on, in order.
pub open spec fn render(v: SpecValue, texts: Seq<Seq<char>>, k: int) -> Seq<char>
    decreases v, 0nat,
{
    match v {
        SpecValue::Number(_) => text_at(texts, k),
        SpecValue::Text(s) => s,
        SpecValue::List(items) => render_list(items, texts, k),
        SpecValue::Null => "null"@,
    }
}

pub open spec fn render_list(items: Seq<SpecValue>, texts: Seq<Seq<char>>, k: int) -> Seq<char>
    decreases items, 1nat,
{
    if items.len() == 0 {
        Seq::empty()
    } else if items.len() == 1 {
        render(items[0], texts, k)
    } else {
        render(items[0], texts, k) + ", "@ + render_list(
            items.subrange(1, items.len() as int),
            texts,
            k + flat_numbers(items[0]).len(),
        )
    }
}

/// The numbers in a value, in the order they are shown.
pub fn flat_numbers_of(v: &Value) -> (r: Vec<u64>)
    ensures
        r@ == flat_numbers(v.model()),
    decreases v,
{
    match v {
        Value::Number(n) => {
            let mut r = Vec::new();
            r.push(*n);
            assert(r@ =~= seq![*n]);
            r
        },
        Value::List(items) => {
            let ghost im = values_model(items@);
            proof {
                lemma_values_model(items@);
            }
            let mut r: Vec<u64> = Vec::new();
            let mut i: usize = items.len();
            assert(im.subrange(i as int, im.len() as int) =~= Seq::<SpecValue>::empty());
            while i > 0
                invariant
                    *v == Value::List(*items),
                    i <= items@.len(),
                    im == values_model(items@),
                    im.len() == items@.len(),
                    forall|k: int| 0 <= k < items@.len() ==> #[trigger] im[k] == items@[k].model(),
                    r@ == flat_numbers_list(im.subrange(i as int, im.len() as int)),
                decreases i,
            {
                i -= 1;
                assert(decreases_to!(*v => v->List_0));
                assert(decreases_to!(*items => items@));
                assert(decreases_to!(items@ => items@[i as int]));
                assert(decreases_to!(v => items@[i as int]));
                let mut inner = flat_numbers_of(&items[i]);
                let ghost rest = im.subrange(i + 1, im.len() as int);
                assert(im.subrange(i as int, im.len() as int).subrange(1, im.len() - i) =~= rest);
                inner.append(&mut r);
                r = inner;
            }
            assert(im.subrange(0, im.len() as int) =~= im);
            r
        },
        _ => Vec::new(),
    }
}

/// The text that shows `v`, taking the texts of its numbers from `k` on, and
/// the number of numbers it holds.
pub fn render_value(v: &Value, texts: &Vec<String>, k: usize) -> (r: (String, usize))
    requires
        k + flat_numbers(v.model()).len() <= usize::MAX,
    ensures
        r.0@ == render(v.model(), strings_view(texts@), k as int),
        r.1 == flat_numbers(v.model()).len(),
    decreases v,
{
    match v {
        Value::Number(_) => {
            let line = if k < texts.len() {
                texts[k].clone()
            } else {
                String::new()
            };
            (line, 1)
        },
        Value::Text(s) => (s.clone(), 0),
        Value::Null => {
            let mut line = String::new();
            line.append("null");
            (line, 0)
        },
        Value::List(items) => {
            let ghost im = values_model(items@);
            let ghost ts = strings_view(texts@);
            proof {
                lemma_values_model(items@);
            }
            let mut line = String::new();
            let mut count: usize = 0;
            let mut i: usize = 0;
            assert(im.take(0) =~= Seq::<SpecValue>::empty());
            assert(im.skip(0) =~= im);
            while i < items.len()
                invariant
                    *v == Value::List(*items),
                    i <= items@.len(),
                    im == values_model(items@),
                    im.len() == items@.len(),
                    forall|j: int| 0 <= j < items@.len() ==> #[trigger] im[j] == items@[j].model(),
                    ts == strings_view(texts@),
                    count == flat_numbers_list(im.take(i as int)).len(),
                    k + flat_numbers_list(im).len() <= usize::MAX,
                    flat_numbers_list(im) == flat_numbers_list(im.take(i as int)) + flat_numbers_list(
                        im.skip(i as int),
                    ),
                    line@ + list_tail(im, ts, k + count, i as int) == render_list(im, ts, k as int),
                decreases items@.len() - i,
            {
                assert(decreases_to!(*v => v->List_0));
                assert(decreases_to!(*items => items@));
                assert(decreases_to!(items@ => items@[i as int]));
                assert(decreases_to!(v => items@[i as int]));
                let ghost rest = im.skip(i as int);
                let ghost j = k + count;
                assert(rest[0] == items@[i as int].model());
                assert(rest.subrange(1, rest.len() as int) =~= im.skip(i + 1));
                assert(im.take(i + 1) =~= im.take(i as int) + seq![rest[0]]);
                proof {
                    lemma_flat_numbers_concat(im.take(i as int), seq![rest[0]]);
                    lemma_flat_numbers_concat(seq![rest[0]], im.skip(i + 1));
                    assert(seq![rest[0]] + im.skip(i + 1) =~= rest);
                    assert(seq![rest[0]].subrange(1, 1) =~= Seq::<SpecValue>::empty());
                    assert(flat_numbers_list(im) == flat_numbers_list(im.take(i + 1)) + flat_numbers_list(
                        im.skip(i + 1),
                    ));
                }
                let (part, used) = render_value(&items[i], texts, k + count);
                if i > 0 {
                    line.append(", ");
                }
                line.append(part.as_str());
                count = count + used;
                i += 1;
                proof {
                    if i < items@.len() {
                        assert(rest.len() >= 2);
                    }
                    assert(line@ + list_tail(im, ts, k + count, i as int) =~= render_list(im, ts, k as int));
                }
            }
            proof {
                assert(im.take(i as int) =~= im);
                assert(line@ + list_tail(im, ts, k + count, i as int) =~= line@);
            }
            (line, count)
        },
    }
}

/// The part of a shown list from item `i` on, with the separator before it.
pub open spec fn list_tail(items: Seq<SpecValue>, texts: Seq<Seq<char>>, k: int, i: int) -> Seq<char> {
    if i < items.len() {
        (if i > 0 {
            ", "@
        } else {
            Seq::empty()
        }) + render_list(items.skip(i), texts, k)
    } else {
        Seq::empty()
    }
}

pub proof fn lemma_flat_numbers_concat(a: Seq<SpecValue>, b: Seq<SpecValue>)
    ensures
        flat_numbers_list(a + b) == flat_numbers_list(a) + flat_numbers_list(b),
    decreases a.len(),
{
    if a.len() == 0 {
        assert(a + b =~= b);
        assert(flat_numbers_list(a) + flat_numbers_list(b) =~= flat_numbers_list(b));
    } else {
        lemma_flat_numbers_concat(a.subrange(1, a.len() as int), b);
        assert((a + b).subrange(1, (a + b).len() as int) =~= a.subrange(1, a.len() as int) + b);
        assert((a + b)[0] == a[0]);
        assert(flat_numbers_list(a + b) =~= flat_numbers_list(a) + flat_numbers_list(b));
    }
}

} // verus!
