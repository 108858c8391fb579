use vstd::prelude::*;

verus! {

/// A parameter of a condition annotation other than `pre` and `post`.
#[derive(Debug)]
pub struct UnknownParameter(pub String);

pub open spec fn pre_name() -> Seq<char> {
    seq!['p', 'r', 'e']
}

pub open spec fn post_name() -> Seq<char> {
    seq!['p', 'o', 's', 't']
}

/// The value of the last of the first `k` parameters named `key`, if any.
pub open spec fn last_value(params: Seq<(String, String)>, key: Seq<char>, k: int) -> Option<
    Seq<char>,
>
    decreases k,
{
    if k <= 0 {
        None
    } else if params[k - 1].0@ == key {
        Some(params[k - 1].1@)
    } else {
        last_value(params, key, k - 1)
    }
}

/// A condition text that is there and not empty.
pub open spec fn present(v: Option<Seq<char>>) -> bool {
    v is Some && v->Some_0.len() > 0
}

/// The annotation's parameters, as name and string value, give the
/// function's precondition and postcondition text. A function is verified
/// only when both are there and non-empty: otherwise the result is
/// `Ok(None)`. A parameter named otherwise is refused.
pub fn conditions_of(params: &Vec<(String, String)>) -> (r: Result<
    Option<(String, String)>,
    UnknownParameter,
>)
    ensures
        match r {
            Ok(Some((p, q))) => (forall|j: int|
                0 <= j < params@.len() ==> #[trigger] params@[j].0@ == pre_name() || params@[j].0@
                    == post_name()) && last_value(params@, pre_name(), params@.len() as int)
                == Some(p@) && last_value(params@, post_name(), params@.len() as int) == Some(q@)
                && p@.len() > 0 && q@.len() > 0,
            Ok(None) => (forall|j: int|
                0 <= j < params@.len() ==> #[trigger] params@[j].0@ == pre_name() || params@[j].0@
                    == post_name()) && !(present(last_value(params@, pre_name(), params@.len() as int))
                && present(last_value(params@, post_name(), params@.len() as int))),
            Err(UnknownParameter(n)) => exists|j: int|
                0 <= j < params@.len() && #[trigger] params@[j].0@ == n@ && n@ != pre_name() && n@
                    != post_name(),
        },
{
    let pre_s = String::from_str("pre");
    let post_s = String::from_str("post");
    proof {
        reveal_strlit("pre");
        reveal_strlit("post");
        assert(pre_s@ =~= pre_name());
        assert(post_s@ =~= post_name());
    }
    let mut pre: Option<String> = None;
    let mut post: Option<String> = None;
    let mut i: usize = 0;
    while i < params.len()
        invariant
            0 <= i <= params@.len(),
            pre_s@ == pre_name(),
            post_s@ == post_name(),
            forall|j: int|
                0 <= j < i ==> #[trigger] params@[j].0@ == pre_name() || params@[j].0@
                    == post_name(),
            match pre {
                Some(p) => last_value(params@, pre_name(), i as int) == Some(p@),
                None => last_value(params@, pre_name(), i as int) is None,
            },
            match post {
                Some(p) => last_value(params@, post_name(), i as int) == Some(p@),
                None => last_value(params@, post_name(), i as int) is None,
            },
        decreases params@.len() - i,
    {
        let (name, value) = &params[i];
        if *name == pre_s {
            pre = Some(value.clone());
        } else if *name == post_s {
            post = Some(value.clone());
        } else {
            return Err(UnknownParameter(name.clone()));
        }
        i = i + 1;
    }
    match (pre, post) {
        (Some(p), Some(q)) => {
            if p.as_str().unicode_len() > 0 && q.as_str().unicode_len() > 0 {
                Ok(Some((p, q)))
            } else {
                Ok(None)
            }
        },
        _ => Ok(None),
    }
}

} // verus!
