//! The values a match constructs.

use vstd::prelude::*;

verus! {

/// A constructed value: the index of the variant that matched and, for a
/// fielded variant, the text each field captured (`None` where its group did
/// not participate, or where the field resolves to no group at all).  A
/// transparent variant wraps the value the nested shape produced.
pub enum Value {
    Record { variant: usize, fields: Vec<Option<Vec<u8>>> },
    Nested { variant: usize, inner: Box<Value> },
}

/// The mathematical form of one optional captured text.
pub open spec fn opt_bytes_view(g: Option<Vec<u8>>) -> Option<Seq<u8>> {
    match g {
        Some(v) => Some(v@),
        None => None,
    }
}

/// The mathematical form of a list of optional captured texts.
pub open spec fn opt_bytes_list_view(fs: Seq<Option<Vec<u8>>>) -> Seq<Option<Seq<u8>>> {
    fs.map(|i: int, g: Option<Vec<u8>>| opt_bytes_view(g))
}

/// The mathematical form of a [`Value`].
pub enum GValue {
    Record { variant: int, fields: Seq<Option<Seq<u8>>> },
    Nested { variant: int, inner: Box<GValue> },
}

/// The mathematical form of a concrete value.
pub open spec fn val_view(v: Value) -> GValue
    decreases v,
{
    match v {
        Value::Record { variant, fields } => GValue::Record {
            variant: variant as int,
            fields: opt_bytes_list_view(fields@),
        },
        Value::Nested { variant, inner } => GValue::Nested {
            variant: variant as int,
            inner: Box::new(val_view(*inner)),
        },
    }
}

/// The mathematical form of an optional value.
pub open spec fn opt_val_view(v: Option<Value>) -> Option<GValue> {
    match v {
        Some(x) => Some(val_view(x)),
        None => None,
    }
}


fn opt_bytes_eq(a: &Option<Vec<u8>>, b: &Option<Vec<u8>>) -> (r: bool)
    ensures
        r == (opt_bytes_view(*a) == opt_bytes_view(*b)),
{
    match (a, b) {
        (None, None) => true,
        (Some(x), Some(y)) => {
            if x == y {
                proof {
                    assert(x@ =~= y@);
                }
                true
            } else {
                proof {
                    if x@ == y@ {
                        assert(forall|k: int| 0 <= k < x@.len() ==> x@[k] == y@[k]);
                        assert(false);
                    }
                }
                false
            }
        },
        _ => false,
    }
}

fn fields_eq(a: &Vec<Option<Vec<u8>>>, b: &Vec<Option<Vec<u8>>>) -> (r: bool)
    ensures
        r == (opt_bytes_list_view(a@) == opt_bytes_list_view(b@)),
{
    if a.len() != b.len() {
        proof {
            assert(opt_bytes_list_view(a@).len() != opt_bytes_list_view(b@).len());
        }
        return false;
    }
    let n = a.len();
    let mut k: usize = 0;
    while k < n
        invariant
            n == a@.len() && n == b@.len(),
            k <= n,
            forall|t: int|
                0 <= t < k ==> opt_bytes_list_view(a@)[t] == opt_bytes_list_view(b@)[t],
        decreases n - k,
    {
        if !opt_bytes_eq(&a[k], &b[k]) {
            proof {
                assert(opt_bytes_list_view(a@)[k as int] != opt_bytes_list_view(b@)[k as int]);
            }
            return false;
        }
        k = k + 1;
    }
    proof {
        assert(opt_bytes_list_view(a@) =~= opt_bytes_list_view(b@));
    }
    true
}

impl PartialEq for Value {
    /// Two values are equal when their mathematical forms are: the same
    /// variant index and, field by field, the same captured text, or the
    /// same wrapped nested value.
    fn eq(&self, other: &Value) -> (r: bool)
        decreases *self,
    {
        match (self, other) {
            (
                Value::Record { variant: v1, fields: f1 },
                Value::Record { variant: v2, fields: f2 },
            ) => *v1 == *v2 && fields_eq(f1, f2),
            (
                Value::Nested { variant: v1, inner: i1 },
                Value::Nested { variant: v2, inner: i2 },
            ) => *v1 == *v2 && (**i1).eq(&**i2),
            _ => false,
        }
    }
}

impl Eq for Value {}

impl vstd::std_specs::cmp::PartialEqSpecImpl for Value {
    open spec fn obeys_eq_spec() -> bool {
        true
    }

    open spec fn eq_spec(&self, other: &Value) -> bool {
        val_view(*self) == val_view(*other)
    }
}

} // verus!
