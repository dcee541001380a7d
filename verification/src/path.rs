use vstd::prelude::*;

verus! {

/// A parsed variable path: prefix operators, the variable's name, then
/// field selections and array indexings, as in `*p.field[3]`.  The
/// command parser builds it; the evaluator walks it.
#[derive(Debug)]
pub struct Path {
    pub prefix_operators: Vec<PrefixOperator>,
    pub name: String,
    pub postfix_operators: Vec<PostfixOperator>,
}

impl Path {
    pub fn new(name: String) -> (r: Self)
        ensures
            r.prefix_operators@ == Seq::<PrefixOperator>::empty(),
            r.name == name,
            r.postfix_operators@ == Seq::<PostfixOperator>::empty(),
    {
        Path { prefix_operators: Vec::new(), name, postfix_operators: Vec::new() }
    }
}

/// `&` takes an address, `*` dereferences.
#[derive(Debug, Clone, Copy, PartialEq, Eq, Structural)]
pub enum PrefixOperator {
    Ref,
    Deref,
}

impl PrefixOperator {
    /// The operator a character denotes, if any.
    pub fn from_char(c: char) -> (r: Option<Self>)
        ensures
            c == '&' ==> r == Some(PrefixOperator::Ref),
            c == '*' ==> r == Some(PrefixOperator::Deref),
            (c != '&' && c != '*') ==> r is None,
    {
        if c == '&' {
            Some(PrefixOperator::Ref)
        } else if c == '*' {
            Some(PrefixOperator::Deref)
        } else {
            None
        }
    }

    pub fn to_char(&self) -> (r: char)
        ensures
            *self == PrefixOperator::Ref ==> r == '&',
            *self == PrefixOperator::Deref ==> r == '*',
    {
        match self {
            PrefixOperator::Ref => '&',
            PrefixOperator::Deref => '*',
        }
    }
}

/// `.field` narrows to a member, `[i]` selects an array element.
#[derive(Debug, Clone, PartialEq, Eq)]
pub enum PostfixOperator {
    Field(String),
    Index(usize),
}

/// One star for each dereference among the first `i` prefix operators.
pub open spec fn deref_stars(ops: Seq<PrefixOperator>, i: int) -> Seq<char>
    decreases (if i <= 0 { 0int } else { i }),
{
    if i <= 0 {
        Seq::<char>::empty()
    } else {
        deref_stars(ops, i - 1) + (if ops[i - 1] == PrefixOperator::Deref {
            seq!['*']
        } else {
            Seq::<char>::empty()
        })
    }
}

/// The name a printed variable carries: the dereference stars, then the
/// last field selected, or the base name with the last index, or the
/// base name alone.
pub open spec fn display_name_spec(p: Path) -> Seq<char> {
    deref_stars(p.prefix_operators@, p.prefix_operators@.len() as int) + (if p.postfix_operators@.len() > 0 {
        match p.postfix_operators@.last() {
            PostfixOperator::Field(f) => f@,
            PostfixOperator::Index(i) => p.name@ + seq!['['] + crate::text::dec_digits(i as nat)
                + seq![']'],
        }
    } else {
        p.name@
    })
}

/// The name shown for a resolved path, as the `print` command heads its
/// line with it.
pub fn display_name(p: &Path) -> (r: String)
    ensures
        r@ == display_name_spec(*p),
{
    let mut stars: Vec<char> = Vec::new();
    let n = p.prefix_operators.len();
    let mut i: usize = 0;
    while i < n
        invariant
            i <= n,
            n == p.prefix_operators@.len(),
            stars@ == deref_stars(p.prefix_operators@, i as int),
        decreases n - i,
    {
        if p.prefix_operators[i] == PrefixOperator::Deref {
            stars.push('*');
            proof {
                assert(stars@ =~= deref_stars(p.prefix_operators@, i + 1));
            }
        } else {
            proof {
                assert(stars@ =~= deref_stars(p.prefix_operators@, i + 1));
            }
        }
        i = i + 1;
    }
    let head = crate::text::chars_to_string(stars);
    let m = p.postfix_operators.len();
    if m == 0 {
        return head.concat(p.name.as_str());
    }
    match &p.postfix_operators[m - 1] {
        PostfixOperator::Field(f) => head.concat(f.as_str()),
        PostfixOperator::Index(idx) => {
            let num = crate::text::u64_to_string(*idx as u64);
            let out = head.concat(p.name.as_str()).concat("[").concat(num.as_str()).concat("]");
            proof {
                reveal_strlit("[");
                reveal_strlit("]");
                assert("["@ =~= seq!['[']);
                assert("]"@ =~= seq![']']);
                assert(out@ =~= head@ + (p.name@ + seq!['['] + crate::text::dec_digits(
                    *idx as nat,
                ) + seq![']']));
            }
            out
        },
    }
}

} // verus!
