//! Options of the rule compiler's command line.
use vstd::prelude::*;
use vstd::string::StrSliceExecFns;

verus! {

/// `prefix=value`: a prefix to use when rendering IRIs.
#[derive(Clone, Debug)]
pub struct PrefixBinding {
    pub prefix: String,
    pub value: String,
}

/// A prefix binding without `=`.
#[derive(Debug, Clone, Copy, PartialEq, Eq, Structural)]
pub struct InvalidPrefixBinding;

impl PrefixBinding {
    /// Splits `s` at its first `=`.
    pub fn parse(s: &str) -> (r: Result<PrefixBinding, InvalidPrefixBinding>)
        ensures
            match r {
                Ok(b) => s@ == b.prefix@ + seq!['='] + b.value@ && !b.prefix@.contains('='),
                Err(_) => !s@.contains('='),
            },
    {
        let n = s.unicode_len();
        let mut i: usize = 0;
        while i < n
            invariant
                n == s@.len(),
                i <= n,
                forall|j: int| 0 <= j < i ==> s@[j] != '=',
            decreases n - i,
        {
            if s.get_char(i) == '=' {
                let prefix = s.substring_char(0, i).to_owned();
                let value = s.substring_char(i + 1, n).to_owned();
                proof {
                    assert(s@ =~= prefix@ + seq!['='] + value@);
                    assert(!prefix@.contains('=')) by {
                        if prefix@.contains('=') {
                            let j = choose|j: int| 0 <= j < prefix@.len() && prefix@[j] == '=';
                            assert(s@[j] == '=');
                        }
                    }
                }
                return Ok(PrefixBinding { prefix, value });
            }
            i = i + 1;
        }
        Err(InvalidPrefixBinding)
    }
}

impl std::str::FromStr for PrefixBinding {
    type Err = InvalidPrefixBinding;

    fn from_str(s: &str) -> (r: Result<PrefixBinding, InvalidPrefixBinding>)
        ensures
            match r {
                Ok(b) => s@ == b.prefix@ + seq!['='] + b.value@ && !b.prefix@.contains('='),
                Err(_) => !s@.contains('='),
            },
    {
        PrefixBinding::parse(s)
    }
}

} // verus!
