//! Requests that the server sends to the client: their ids, the requests that still await a
//! response, and what a response means for the request that it answers.
use vstd::prelude::*;
use crate::json_rpc::{IdRepr, RequestId};
use crate::lsp_protocol::LspProtocolError;
use crate::text::same_text;

verus! {

/// A request id as a plain value: a number, or the text of a string id.
pub open spec fn id_view(id: RequestId) -> Result<i32, Seq<char>> {
    match id.0 {
        IdRepr::I32(n) => Ok(n),
        IdRepr::String(s) => Err(s@),
    }
}

/// Whether two ids are the same id.
pub fn same_id(a: &RequestId, b: &RequestId) -> (r: bool)
    ensures
        r == (id_view(*a) == id_view(*b)),
{
    match (&a.0, &b.0) {
        (IdRepr::I32(x), IdRepr::I32(y)) => *x == *y,
        (IdRepr::String(x), IdRepr::String(y)) => same_text(x.as_str(), y.as_str()),
        _ => false,
    }
}

/// The ids given to the server's requests, and those of the requests that await a response.
pub struct RequestTracker {
    next_id: i32,
    awaiting: Vec<RequestId>,
}

/// `s` without its first occurrence of `x`.
pub open spec fn remove_first<A>(s: Seq<A>, x: A) -> Seq<A>
    decreases s.len(),
{
    if s.len() == 0 {
        s
    } else if s[0] == x {
        s.drop_first()
    } else {
        seq![s[0]] + remove_first(s.drop_first(), x)
    }
}

impl RequestTracker {
    /// The id that the next request gets.
    pub closed spec fn spec_next_id(&self) -> i32 {
        self.next_id
    }

    /// The requests that await a response, oldest first.
    pub closed spec fn spec_awaiting(&self) -> Seq<Result<i32, Seq<char>>> {
        self.awaiting@.map_values(|id: RequestId| id_view(id))
    }

    /// No request yet; the first gets the id 0.
    pub fn new() -> (r: Self)
        ensures
            r.spec_next_id() == 0,
            r.spec_awaiting() == Seq::<Result<i32, Seq<char>>>::empty(),
    {
        let r = RequestTracker { next_id: 0, awaiting: Vec::new() };
        assert(r.spec_awaiting() =~= Seq::<Result<i32, Seq<char>>>::empty());
        r
    }

    /// Gives a new request the next id (ids wrap around), and records that it awaits a response.
    pub fn begin(&mut self) -> (id: RequestId)
        ensures
            id_view(id) == Ok::<i32, Seq<char>>(old(self).spec_next_id()),
            final(self).spec_next_id() == old(self).spec_next_id().wrapping_add(1),
            final(self).spec_awaiting() == old(self).spec_awaiting().push(
                Ok::<i32, Seq<char>>(old(self).spec_next_id()),
            ),
    {
        let n = self.next_id;
        self.next_id = n.wrapping_add(1);
        let ghost before = self.awaiting@;
        self.awaiting.push(RequestId(IdRepr::I32(n)));
        let id = RequestId(IdRepr::I32(n));
        assert(self.awaiting@.map_values(|id: RequestId| id_view(id)) =~= before.map_values(
            |id: RequestId| id_view(id),
        ).push(Ok::<i32, Seq<char>>(n)));
        id
    }

    /// Takes the request that `id` names out of those awaiting a response: `false` when no
    /// request with that id awaits one.
    pub fn take(&mut self, id: &RequestId) -> (r: bool)
        ensures
            r == old(self).spec_awaiting().contains(id_view(*id)),
            final(self).spec_awaiting() == remove_first(old(self).spec_awaiting(), id_view(*id)),
            final(self).spec_next_id() == old(self).spec_next_id(),
    {
        let ghost a = self.spec_awaiting();
        let ghost k = id_view(*id);
        let mut i: usize = 0;
        while i < self.awaiting.len()
            invariant
                i <= self.awaiting.len(),
                a == self.awaiting@.map_values(|id: RequestId| id_view(id)),
                k == id_view(*id),
                forall|j: int| 0 <= j < i ==> a[j] != k,
                *self == *old(self),
            decreases self.awaiting.len() - i,
        {
            if same_id(&self.awaiting[i], id) {
                let ghost before = self.awaiting@;
                self.awaiting.remove(i);
                proof {
                    lemma_remove_first_at(a, k, i as int);
                    assert(self.awaiting@.map_values(|id: RequestId| id_view(id)) =~= a.subrange(
                        0,
                        i as int,
                    ) + a.subrange(i + 1, a.len() as int));
                    assert(a.contains(k)) by {
                        assert(a[i as int] == k);
                    }
                }
                return true;
            }
            i = i + 1;
        }
        proof {
            lemma_remove_first_absent(a, k);
        }
        false
    }
}

proof fn lemma_remove_first_absent<A>(s: Seq<A>, x: A)
    requires
        forall|j: int| 0 <= j < s.len() ==> s[j] != x,
    ensures
        remove_first(s, x) == s,
        !s.contains(x),
    decreases s.len(),
{
    if s.len() > 0 {
        lemma_remove_first_absent(s.drop_first(), x);
        assert(seq![s[0]] + s.drop_first() =~= s);
    }
}

proof fn lemma_remove_first_at<A>(s: Seq<A>, x: A, i: int)
    requires
        0 <= i < s.len(),
        s[i] == x,
        forall|j: int| 0 <= j < i ==> s[j] != x,
    ensures
        remove_first(s, x) == s.subrange(0, i) + s.subrange(i + 1, s.len() as int),
    decreases s.len(),
{
    if i == 0 {
        assert(s.drop_first() =~= s.subrange(1, s.len() as int));
    } else {
        lemma_remove_first_at(s.drop_first(), x, i - 1);
        assert(seq![s[0]] + (s.drop_first().subrange(0, i - 1) + s.drop_first().subrange(
            i,
            s.len() - 1,
        )) =~= s.subrange(0, i) + s.subrange(i + 1, s.len() as int));
    }
}

/// What the answer to a request the server sent gives the sender.
#[derive(Clone, Copy, Debug, PartialEq, Eq, Structural)]
pub enum ResponseOutcome {
    /// The response carries the request's result.
    Value,
    /// The response has no result: the request's default result stands.
    Default,
}

/// What a response means: an error response is an unexpected response; otherwise its result,
/// or the default result when it carries none.
pub fn interpret_response(has_error: bool, has_result: bool) -> (r: Result<
    ResponseOutcome,
    LspProtocolError,
>)
    ensures
        has_error ==> r matches Err(LspProtocolError::UnexpectedResponse),
        !has_error && has_result ==> r == Ok::<ResponseOutcome, LspProtocolError>(
            ResponseOutcome::Value,
        ),
        !has_error && !has_result ==> r == Ok::<ResponseOutcome, LspProtocolError>(
            ResponseOutcome::Default,
        ),
{
    if has_error {
        Err(LspProtocolError::UnexpectedResponse)
    } else if has_result {
        Ok(ResponseOutcome::Value)
    } else {
        Ok(ResponseOutcome::Default)
    }
}

} // verus!
