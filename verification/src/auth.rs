//! Static bearer tokens and the tenants they stand for.
use vstd::prelude::*;
use crate::headers;
use crate::headers::{equal_but_case, find, has_whitespace, part, trim};
use crate::sorted;
use crate::sorted::TextMap;
use crate::text::{chars_of, string_of};

verus! {

/// Failure while building a static token directory.
#[derive(Clone, Copy, Debug, PartialEq, Eq, Structural)]
pub enum AuthConfigError {
    EmptyDirectory,
    EmptyToken,
    EmptyTenant,
    DuplicateToken,
}

impl AuthConfigError {
    pub open spec fn text(&self) -> Seq<char> {
        match self {
            AuthConfigError::EmptyDirectory => "token directory must not be empty"@,
            AuthConfigError::EmptyToken => "bearer token must not be empty"@,
            AuthConfigError::EmptyTenant => "tenant id must not be empty"@,
            AuthConfigError::DuplicateToken => "duplicate bearer token"@,
        }
    }

    /// The message of this error.
    pub fn message(&self) -> (message: String)
        ensures
            message@ == self.text(),
    {
        match self {
            AuthConfigError::EmptyDirectory => "token directory must not be empty".to_owned(),
            AuthConfigError::EmptyToken => "bearer token must not be empty".to_owned(),
            AuthConfigError::EmptyTenant => "tenant id must not be empty".to_owned(),
            AuthConfigError::DuplicateToken => "duplicate bearer token".to_owned(),
        }
    }
}

/// Authentication failed before a batch is admitted.
#[derive(Clone, Copy, Debug, PartialEq, Eq, Structural)]
pub enum AuthError {
    Unauthenticated,
}

impl AuthError {
    /// The message of this error.
    pub fn message(&self) -> (message: String)
        ensures
            message@ == "unauthenticated"@,
    {
        "unauthenticated".to_owned()
    }
}

/// The token of an `Authorization` header: what follows the scheme `Bearer`, without the white
/// space around it. None where the scheme is another, or the token is empty or holds white space.
pub open spec fn bearer_token(header: Seq<char>) -> Option<Seq<char>> {
    let value = headers::trimmed(header);
    let at = headers::first_index(value, ' ');
    if at >= value.len() || !headers::same_but_case(value.take(at), "Bearer"@) {
        None
    } else {
        let token = headers::trimmed(value.skip(at + 1));
        if token.len() == 0 || headers::holds_whitespace(token) {
            None
        } else {
            Some(token)
        }
    }
}

fn parse_bearer(header: &str) -> (token: Option<String>)
    ensures
        token.deep_view() == bearer_token(header@),
{
    let value = trim(&chars_of(header));
    let at = find(&value, ' ');
    if at == value.len() {
        return None;
    }
    let scheme = part(&value, 0, at);
    assert(scheme@ =~= value@.take(at as int));
    if !equal_but_case(&scheme, &chars_of("Bearer")) {
        return None;
    }
    let rest = part(&value, at + 1, value.len());
    assert(rest@ =~= value@.skip(at + 1));
    let token = trim(&rest);
    if token.len() == 0 || has_whitespace(&token) {
        return None;
    }
    Some(string_of(token.as_slice()))
}

/// The tokens that bindings register, taken in their order, or the first fault among them.
pub open spec fn registered(bindings: Seq<(Seq<char>, Seq<char>)>) -> Result<
    Seq<(Seq<char>, Seq<char>)>,
    AuthConfigError,
>
    decreases bindings.len(),
{
    if bindings.len() == 0 {
        Ok(Seq::empty())
    } else {
        let (token, tenant) = bindings.last();
        match registered(bindings.drop_last()) {
            Err(error) => Err(error),
            Ok(tokens) => if token.len() == 0 {
                Err(AuthConfigError::EmptyToken)
            } else if tenant.len() == 0 {
                Err(AuthConfigError::EmptyTenant)
            } else if sorted::lookup(tokens, token) is Some {
                Err(AuthConfigError::DuplicateToken)
            } else {
                Ok(sorted::put(tokens, token, tenant))
            },
        }
    }
}

/// The directory of some bindings, or why there is none.
pub open spec fn directory_of(bindings: Seq<(Seq<char>, Seq<char>)>) -> Result<
    Seq<(Seq<char>, Seq<char>)>,
    AuthConfigError,
> {
    if bindings.len() == 0 {
        Err(AuthConfigError::EmptyDirectory)
    } else {
        registered(bindings)
    }
}

proof fn lemma_registered_fail(bindings: Seq<(Seq<char>, Seq<char>)>, count: int)
    requires
        0 <= count <= bindings.len(),
        registered(bindings.take(count)) is Err,
    ensures
        registered(bindings) == registered(bindings.take(count)),
    decreases bindings.len() - count,
{
    if count < bindings.len() {
        assert(bindings.take(count + 1).drop_last() =~= bindings.take(count));
        lemma_registered_fail(bindings, count + 1);
    } else {
        assert(bindings.take(count) =~= bindings);
    }
}

/// The tokens of a directory are those of its bindings, each with the tenant it was bound to.
pub proof fn every_binding_resolves(bindings: Seq<(Seq<char>, Seq<char>)>, token: Seq<char>)
    requires
        registered(bindings) is Ok,
    ensures
        forall|i: int|
            0 <= i < bindings.len() ==> sorted::lookup(
                registered(bindings)->Ok_0,
                (#[trigger] bindings[i]).0,
            ) == Some(bindings[i].1),
        sorted::lookup(registered(bindings)->Ok_0, token) is Some <==> exists|i: int|
            0 <= i < bindings.len() && (#[trigger] bindings[i]).0 == token,
    decreases bindings.len(),
{
    if bindings.len() > 0 {
        let front = bindings.drop_last();
        let (last, tenant) = bindings.last();
        let before = registered(front)->Ok_0;
        every_binding_resolves(front, token);
        every_binding_resolves(front, last);
        sorted::lemma_lookup_put(before, last, tenant, token);
        assert forall|i: int| 0 <= i < bindings.len() implies sorted::lookup(
            registered(bindings)->Ok_0,
            (#[trigger] bindings[i]).0,
        ) == Some(bindings[i].1) by {
            sorted::lemma_lookup_put(before, last, tenant, bindings[i].0);
            if i < front.len() {
                assert(front[i] == bindings[i]);
            }
        }
        if exists|i: int| 0 <= i < front.len() && (#[trigger] front[i]).0 == token {
            let i = choose|i: int| 0 <= i < front.len() && (#[trigger] front[i]).0 == token;
            assert(bindings[i].0 == token);
        }
        if exists|i: int| 0 <= i < bindings.len() && (#[trigger] bindings[i]).0 == token {
            let i = choose|i: int| 0 <= i < bindings.len() && (#[trigger] bindings[i]).0 == token;
            if i < front.len() {
                assert(front[i].0 == token);
            }
        }
        if token == last {
            assert(bindings[bindings.len() - 1].0 == token);
        }
    }
}

/// The text that `{:?}` writes for a string.
pub uninterp spec fn debug_text(value: Seq<char>) -> Seq<char>;

/// `format!` with `{:?}` on a string: quoted and escaped.
#[verifier::external_body]
fn show_quoted(value: &str) -> (shown: String)
    ensures
        shown@ == debug_text(value@),
{
    format!("{:?}", value)
}

/// The tenants, each quoted, with a comma and a space between neighbours.
pub open spec fn tenants_text(tenants: Seq<Seq<char>>) -> Seq<char>
    decreases tenants.len(),
{
    if tenants.len() == 0 {
        Seq::empty()
    } else if tenants.len() == 1 {
        debug_text(tenants[0])
    } else {
        tenants_text(tenants.drop_last()) + ", "@ + debug_text(tenants.last())
    }
}

/// The tenants of a directory, in the order of their tokens.
pub open spec fn tenants_of(tokens: Seq<(Seq<char>, Seq<char>)>) -> Seq<Seq<char>> {
    tokens.map_values(|entry: (Seq<char>, Seq<char>)| entry.1)
}

/// Static bearer-token to tenant mapping.
pub struct TokenDirectory {
    tokens: TextMap<String>,
}

impl View for TokenDirectory {
    type V = Seq<(Seq<char>, Seq<char>)>;

    /// Tokens in ascending order, each with its tenant.
    closed spec fn view(&self) -> Seq<(Seq<char>, Seq<char>)> {
        self.tokens@
    }
}

impl Clone for TokenDirectory {
    fn clone(&self) -> (copy: Self)
        ensures
            copy@ == self@,
    {
        TokenDirectory { tokens: self.tokens.clone() }
    }
}

pub open spec fn binding_views(bindings: Seq<(&str, &str)>) -> Seq<(Seq<char>, Seq<char>)> {
    bindings.map_values(|binding: (&str, &str)| (binding.0@, binding.1@))
}

impl TokenDirectory {
    /// A directory of `bindings`, each a token and its tenant.
    ///
    /// # Errors
    ///
    /// Returns the fault of the first binding with an empty token, an empty tenant or a token that
    /// an earlier binding has, in this order, and [`AuthConfigError::EmptyDirectory`] where there
    /// is no binding.
    pub fn new(bindings: &[(&str, &str)]) -> (result: Result<Self, AuthConfigError>)
        ensures
            match result {
                Ok(directory) => directory_of(binding_views(bindings@)) == Ok::<
                    Seq<(Seq<char>, Seq<char>)>,
                    AuthConfigError,
                >(directory@),
                Err(error) => directory_of(binding_views(bindings@)) == Err::<
                    Seq<(Seq<char>, Seq<char>)>,
                    AuthConfigError,
                >(error),
            },
    {
        let ghost all = binding_views(bindings@);
        let mut directory = TokenDirectory { tokens: TextMap::new() };
        let mut i: usize = 0;
        assert(all.take(0) =~= Seq::empty());
        while i < bindings.len()
            invariant
                i <= bindings.len(),
                all == binding_views(bindings@),
                registered(all.take(i as int)) == Ok::<
                    Seq<(Seq<char>, Seq<char>)>,
                    AuthConfigError,
                >(directory@),
            decreases bindings.len() - i,
        {
            assert(all.take(i + 1).drop_last() =~= all.take(i as int));
            match directory.insert(bindings[i].0, bindings[i].1) {
                Ok(()) => {},
                Err(error) => {
                    proof {
                        lemma_registered_fail(all, i + 1);
                    }
                    return Err(error);
                },
            }
            i = i + 1;
        }
        assert(all.take(i as int) =~= all);
        if bindings.len() == 0 {
            return Err(AuthConfigError::EmptyDirectory);
        }
        Ok(directory)
    }

    fn insert(&mut self, token: &str, tenant_id: &str) -> (result: Result<(), AuthConfigError>)
        ensures
            result == if token@.len() == 0 {
                Err::<(), AuthConfigError>(AuthConfigError::EmptyToken)
            } else if tenant_id@.len() == 0 {
                Err::<(), AuthConfigError>(AuthConfigError::EmptyTenant)
            } else if sorted::lookup(old(self)@, token@) is Some {
                Err::<(), AuthConfigError>(AuthConfigError::DuplicateToken)
            } else {
                Ok::<(), AuthConfigError>(())
            },
            final(self)@ == if result is Ok {
                sorted::put(old(self)@, token@, tenant_id@)
            } else {
                old(self)@
            },
    {
        if chars_of(token).len() == 0 {
            return Err(AuthConfigError::EmptyToken);
        }
        if chars_of(tenant_id).len() == 0 {
            return Err(AuthConfigError::EmptyTenant);
        }
        if self.tokens.get(token).is_some() {
            return Err(AuthConfigError::DuplicateToken);
        }
        self.tokens.insert(token.to_owned(), tenant_id.to_owned());
        Ok(())
    }

    /// Resolves `Authorization` to a tenant. Never holds the token in the error.
    ///
    /// # Errors
    ///
    /// Returns [`AuthError::Unauthenticated`] without a header, for one that carries no bearer
    /// token, and for a token that is not in the directory.
    pub fn authenticate(&self, authorization: Option<&str>) -> (result: Result<String, AuthError>)
        ensures
            match tenant_for(self@, authorization) {
                Some(tenant) => result is Ok && result->Ok_0@ == tenant,
                None => result is Err,
            },
    {
        let header = match authorization {
            Some(header) => header,
            None => return Err(AuthError::Unauthenticated),
        };
        let token = match parse_bearer(header) {
            Some(token) => token,
            None => return Err(AuthError::Unauthenticated),
        };
        match self.tokens.get(&token) {
            Some(tenant) => Ok(tenant.clone()),
            None => Err(AuthError::Unauthenticated),
        }
    }

    /// A description of the directory that names its tenants and none of its tokens.
    #[must_use]
    pub fn describe(&self) -> (text: String)
        ensures
            text@ == "TokenDirectory { tenants: ["@ + tenants_text(tenants_of(self@)) + "] }"@,
    {
        let ghost tenants = tenants_of(self@);
        let mut listed = String::new();
        let count = self.tokens.len();
        let mut i: usize = 0;
        assert(tenants.take(0) =~= Seq::empty());
        while i < count
            invariant
                i <= count == tenants.len(),
                tenants == tenants_of(self@),
                self@ == self.tokens@,
                listed@ == tenants_text(tenants.take(i as int)),
            decreases count - i,
        {
            assert(tenants.take(i + 1).drop_last() =~= tenants.take(i as int));
            if i > 0 {
                listed.append(", ");
            }
            listed.append(&show_quoted(self.tokens.value_at(i)));
            assert(listed@ =~= tenants_text(tenants.take(i + 1)));
            i = i + 1;
        }
        assert(tenants.take(i as int) =~= tenants);
        let mut text = "TokenDirectory { tenants: [".to_owned();
        text.append(&listed);
        text.append("] }");
        text
    }
}

/// The tenant that a directory gives for an `Authorization` header.
pub open spec fn tenant_for(
    tokens: Seq<(Seq<char>, Seq<char>)>,
    authorization: Option<&str>,
) -> Option<Seq<char>> {
    match authorization {
        None => None,
        Some(header) => match bearer_token(header@) {
            None => None,
            Some(token) => sorted::lookup(tokens, token),
        },
    }
}

// Laws.

/// A header of the scheme `Bearer`, in whatever case, carries the token behind it, with whatever white
/// space around both.
pub proof fn bearer_headers_carry_their_token(
    left: Seq<char>,
    scheme: Seq<char>,
    between: Seq<char>,
    token: Seq<char>,
    right: Seq<char>,
)
    requires
        headers::all_whitespace(left),
        headers::all_whitespace(between),
        headers::all_whitespace(right),
        headers::same_but_case(scheme, "Bearer"@),
        token.len() > 0,
        forall|i: int| 0 <= i < token.len() ==> !headers::whitespace(#[trigger] token[i]),
    ensures
        bearer_token(left + (scheme + seq![' '] + between + token) + right) == Some(token),
{
    reveal_strlit("Bearer");
    headers::only_ascii_case_is_ignored(scheme, "Bearer"@);
    let value = scheme + seq![' '] + between + token;
    let none = Seq::<char>::empty();
    assert forall|i: int| 0 <= i < scheme.len() implies !headers::whitespace(
        #[trigger] scheme[i],
    ) && scheme[i] != ' ' by {
        assert(headers::same_letter(scheme[i], "Bearer"@[i]));
    }
    assert(value[0] == scheme[0]);
    assert(value[value.len() - 1] == token[token.len() - 1]);
    headers::trimming_leaves_the_text(left, value, right);
    headers::characters_are_found_first(value, ' ');
    let at = headers::first_index(value, ' ');
    assert(value[scheme.len() as int] == ' ');
    assert(at == scheme.len()) by {
        if at < scheme.len() {
            assert(value[at] == scheme[at]);
        }
    }
    assert(value.take(at) =~= scheme);
    assert(value.skip(at + 1) =~= between + token + none);
    assert(headers::all_whitespace(none));
    headers::trimming_leaves_the_text(between, token, none);
}

/// Only such a header carries a token.
pub proof fn tokens_come_from_bearer_headers(header: Seq<char>) -> (parts: (
    Seq<char>,
    Seq<char>,
    Seq<char>,
    Seq<char>,
))
    requires
        bearer_token(header) is Some,
    ensures
        ({
            let (left, scheme, between, right) = parts;
            let token = bearer_token(header)->0;
            &&& headers::all_whitespace(left)
            &&& headers::all_whitespace(between)
            &&& headers::all_whitespace(right)
            &&& headers::same_but_case(scheme, "Bearer"@)
            &&& token.len() > 0
            &&& forall|i: int|
                0 <= i < token.len() ==> !headers::whitespace(#[trigger] token[i])
            &&& header == left + (scheme + seq![' '] + between + token) + right
        }),
{
    let value = headers::trimmed(header);
    let (left, right) = headers::texts_have_a_trimmed_form(header);
    let at = headers::first_index(value, ' ');
    headers::characters_are_found_first(value, ' ');
    let rest = value.skip(at + 1);
    let token = headers::trimmed(rest);
    let (between, after) = headers::texts_have_a_trimmed_form(rest);
    let scheme = value.take(at);
    assert(after.len() == 0) by {
        if after.len() > 0 {
            assert(headers::whitespace(after[after.len() - 1]));
            assert(rest[rest.len() - 1] == after[after.len() - 1]);
            assert(value[value.len() - 1] == rest[rest.len() - 1]);
        }
    }
    assert(rest =~= between + token);
    assert(value =~= scheme + seq![' '] + rest);
    assert(value =~= scheme + seq![' '] + between + token);
    (left, scheme, between, right)
}

/// A directory is made of bindings where there is one, none has an empty token or tenant, and no two
/// have one token; and of no others.
pub proof fn sound_bindings_make_a_directory(bindings: Seq<(Seq<char>, Seq<char>)>)
    ensures
        directory_of(bindings) is Ok <==> bindings.len() > 0 && (forall|i: int|
            0 <= i < bindings.len() ==> (#[trigger] bindings[i]).0.len() > 0 && bindings[i].1.len()
                > 0) && (forall|i: int, j: int|
            0 <= i < j < bindings.len() ==> (#[trigger] bindings[i]).0 != (
            #[trigger] bindings[j]).0),
    decreases bindings.len(),
{
    if bindings.len() > 0 {
        let front = bindings.drop_last();
        let end = bindings.len() - 1;
        let last = bindings[end];
        lemma_registered_sound(front);
        lemma_registered_sound(bindings);
    }
}

/// Whether bindings have no empty token, no empty tenant and no token twice.
spec fn bindings_sound(bindings: Seq<(Seq<char>, Seq<char>)>) -> bool {
    &&& forall|i: int|
        0 <= i < bindings.len() ==> (#[trigger] bindings[i]).0.len() > 0 && bindings[i].1.len() > 0
    &&& forall|i: int, j: int|
        0 <= i < j < bindings.len() ==> (#[trigger] bindings[i]).0 != (#[trigger] bindings[j]).0
}

proof fn lemma_registered_sound(bindings: Seq<(Seq<char>, Seq<char>)>)
    ensures
        registered(bindings) is Ok <==> bindings_sound(bindings),
    decreases bindings.len(),
{
    if bindings.len() > 0 {
        let front = bindings.drop_last();
        let end = bindings.len() - 1;
        let last = bindings[end];
        lemma_registered_sound(front);
        if registered(front) is Ok {
            every_binding_resolves(front, last.0);
        }
        if registered(bindings) is Ok {
            assert forall|i: int| 0 <= i < bindings.len() implies (
            #[trigger] bindings[i]).0.len() > 0 && bindings[i].1.len() > 0 by {
                if i < end {
                    assert(front[i] == bindings[i]);
                }
            }
            assert forall|i: int, j: int| 0 <= i < j < bindings.len() implies (
            #[trigger] bindings[i]).0 != (#[trigger] bindings[j]).0 by {
                assert(front[i] == bindings[i]);
                if j < end {
                    assert(front[j] == bindings[j]);
                }
            }
        }
        if bindings_sound(bindings) {
            assert forall|i: int| 0 <= i < front.len() implies (#[trigger] front[i]).0.len() > 0
                && front[i].1.len() > 0 by {
                assert(front[i] == bindings[i]);
            }
            assert forall|i: int, j: int| 0 <= i < j < front.len() implies (
            #[trigger] front[i]).0 != (#[trigger] front[j]).0 by {
                assert(front[i] == bindings[i] && front[j] == bindings[j]);
            }
            assert(bindings_sound(front));
            assert(last.0.len() > 0 && last.1.len() > 0);
            if sorted::lookup(registered(front)->Ok_0, last.0) is Some {
                let i = choose|i: int| 0 <= i < front.len() && (#[trigger] front[i]).0 == last.0;
                assert(bindings[i].0 == bindings[end].0);
            }
        }
    }
}

/// The holder of a token is its tenant: a header that carries a bound token gives the tenant that the
/// token is bound to, and any other header, or none, gives no tenant.
pub proof fn only_bound_tokens_give_a_tenant(
    bindings: Seq<(Seq<char>, Seq<char>)>,
    authorization: Option<&str>,
    i: int,
)
    requires
        directory_of(bindings) is Ok,
    ensures
        authorization is None ==> tenant_for(directory_of(bindings)->Ok_0, authorization) is None,
        0 <= i < bindings.len() && authorization is Some && bearer_token(authorization->0@)
            == Some(bindings[i].0) ==> tenant_for(directory_of(bindings)->Ok_0, authorization)
            == Some(bindings[i].1),
        tenant_for(directory_of(bindings)->Ok_0, authorization) is Some ==> authorization is Some
            && bearer_token(authorization->0@) is Some && exists|k: int|
            0 <= k < bindings.len() && (#[trigger] bindings[k]).0 == bearer_token(
                authorization->0@,
            )->0 && Some(bindings[k].1) == tenant_for(directory_of(bindings)->Ok_0, authorization),
{
    if authorization is Some && bearer_token(authorization->0@) is Some {
        let token = bearer_token(authorization->0@)->0;
        every_binding_resolves(bindings, token);
        if tenant_for(directory_of(bindings)->Ok_0, authorization) is Some {
            let k = choose|k: int| 0 <= k < bindings.len() && (#[trigger] bindings[k]).0 == token;
            assert(sorted::lookup(registered(bindings)->Ok_0, bindings[k].0) == Some(
                bindings[k].1,
            ));
        }
    }
}

} // verus!
