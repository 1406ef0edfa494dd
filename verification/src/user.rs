//! User profiles, one per identity, with usernames that no two identities
//! share.
use vstd::prelude::*;
use vstd::bytes::*;
use vstd::utf8::*;
use crate::codec::{
    fields_view, frame, frame_fields, lemma_unframe_frame, unframe, unframe_fields, writable,
};
use crate::codec::{field_sum, lemma_field_sum, lemma_frame_holds, lemma_frame_len};
use crate::error::SocialError;
use crate::identity::{anonymous_bytes, Identity};
use crate::table::{
    fits, table_entries, table_get, table_has, table_insert, table_scan, tables_open, bytes_before,
    ByteTable, TABLE_LIMIT,
};
use crate::text::lemma_text_bytes_injective;
use crate::text::{text_bytes, text_from_utf8};

verus! {

/// What is known of a user.
#[derive(Debug, PartialEq, Eq)]
pub struct UserProfile {
    pub principal: Identity,
    pub username: String,
    pub display_name: String,
    pub bio: String,
    pub avatar_url: String,
    pub created_at: u64,
    pub updated_at: u64,
    pub is_verified: bool,
}

/// A profile as plain values.
pub struct UserProfileView {
    pub principal: Seq<u8>,
    pub username: Seq<char>,
    pub display_name: Seq<char>,
    pub bio: Seq<char>,
    pub avatar_url: Seq<char>,
    pub created_at: u64,
    pub updated_at: u64,
    pub is_verified: bool,
}

impl View for UserProfile {
    type V = UserProfileView;

    open spec fn view(&self) -> UserProfileView {
        UserProfileView {
            principal: self.principal@,
            username: self.username@,
            display_name: self.display_name@,
            bio: self.bio@,
            avatar_url: self.avatar_url@,
            created_at: self.created_at,
            updated_at: self.updated_at,
            is_verified: self.is_verified,
        }
    }
}

impl Clone for UserProfile {
    fn clone(&self) -> (r: UserProfile)
        ensures
            r@ == self@,
    {
        UserProfile {
            principal: self.principal.clone(),
            username: self.username.clone(),
            display_name: self.display_name.clone(),
            bio: self.bio.clone(),
            avatar_url: self.avatar_url.clone(),
            created_at: self.created_at,
            updated_at: self.updated_at,
            is_verified: self.is_verified,
        }
    }
}

/// What a new user asks for.
#[derive(Debug, PartialEq, Eq)]
pub struct CreateUserRequest {
    pub username: String,
    pub display_name: String,
    pub bio: String,
    pub avatar_url: String,
}

/// What a user wants changed: a field that is `None` stays as it is.
#[derive(Debug, PartialEq, Eq)]
pub struct UpdateUserRequest {
    pub display_name: Option<String>,
    pub bio: Option<String>,
    pub avatar_url: Option<String>,
}

/// The profile that `identity` gets when `request` is granted at time `now`.
pub open spec fn fresh_profile(
    identity: Seq<u8>,
    request: CreateUserRequest,
    now: u64,
) -> UserProfileView {
    UserProfileView {
        principal: identity,
        username: request.username@,
        display_name: request.display_name@,
        bio: request.bio@,
        avatar_url: request.avatar_url@,
        created_at: now,
        updated_at: now,
        is_verified: false,
    }
}

/// A profile after `request` was applied to it at time `now`.
pub open spec fn revised_profile(
    profile: UserProfileView,
    request: UpdateUserRequest,
    now: u64,
) -> UserProfileView {
    UserProfileView {
        display_name: match request.display_name {
            Some(t) => t@,
            None => profile.display_name,
        },
        bio: match request.bio {
            Some(t) => t@,
            None => profile.bio,
        },
        avatar_url: match request.avatar_url {
            Some(t) => t@,
            None => profile.avatar_url,
        },
        updated_at: now,
        ..profile
    }
}

/// The one byte that stands for a flag.
pub open spec fn flag_byte(flag: bool) -> u8 {
    if flag {
        1u8
    } else {
        0u8
    }
}

/// The fields of a profile, in the order in which they are stored.
pub open spec fn profile_fields(p: UserProfileView) -> Seq<Seq<u8>> {
    seq![
        p.principal,
        encode_utf8(p.username),
        encode_utf8(p.display_name),
        encode_utf8(p.bio),
        encode_utf8(p.avatar_url),
        spec_u64_to_le_bytes(p.created_at),
        spec_u64_to_le_bytes(p.updated_at),
        seq![flag_byte(p.is_verified)],
    ]
}

/// A profile as it is stored.
pub open spec fn profile_bytes(p: UserProfileView) -> Seq<u8> {
    frame(profile_fields(p))
}

/// The profile that a list of fields spells, if it spells one.
pub open spec fn profile_of_fields(f: Seq<Seq<u8>>) -> Option<UserProfileView> {
    if f.len() == 8 && valid_utf8(f[1]) && valid_utf8(f[2]) && valid_utf8(f[3]) && valid_utf8(f[4])
        && f[5].len() == 8 && f[6].len() == 8 && f[7].len() == 1 && f[7][0] <= 1 {
        Some(
            UserProfileView {
                principal: f[0],
                username: decode_utf8(f[1]),
                display_name: decode_utf8(f[2]),
                bio: decode_utf8(f[3]),
                avatar_url: decode_utf8(f[4]),
                created_at: spec_u64_from_le_bytes(f[5]),
                updated_at: spec_u64_from_le_bytes(f[6]),
                is_verified: f[7][0] == 1,
            },
        )
    } else {
        None
    }
}

/// The profile that stored bytes spell, if they spell one.
pub open spec fn profile_parse(bytes: Seq<u8>) -> Option<UserProfileView> {
    match unframe(bytes) {
        Some(f) => profile_of_fields(f),
        None => None,
    }
}

/// Reading a stored profile gives back the profile, as long as its fields
/// are of a length that can be written down.
pub proof fn lemma_profile_round_trip(p: UserProfileView)
    requires
        writable(profile_fields(p)),
    ensures
        profile_parse(profile_bytes(p)) == Some(p),
{
    lemma_unframe_frame(profile_fields(p));
    lemma_auto_spec_u64_to_from_le_bytes();
    encode_utf8_valid_utf8(p.username);
    encode_utf8_decode_utf8(p.username);
    encode_utf8_valid_utf8(p.display_name);
    encode_utf8_decode_utf8(p.display_name);
    encode_utf8_valid_utf8(p.bio);
    encode_utf8_decode_utf8(p.bio);
    encode_utf8_valid_utf8(p.avatar_url);
    encode_utf8_decode_utf8(p.avatar_url);
}

/// How long a stored profile is: 81 bytes, and the identity and the four
/// texts.
pub proof fn lemma_profile_len(p: UserProfileView)
    ensures
        profile_bytes(p).len() == 81 + p.principal.len() + encode_utf8(p.username).len()
            + encode_utf8(p.display_name).len() + encode_utf8(p.bio).len() + encode_utf8(
            p.avatar_url,
        ).len(),
{
    lemma_auto_spec_u64_to_from_le_bytes();
    let f = profile_fields(p);
    lemma_frame_len(f);
    lemma_field_sum(f, 8);
    reveal_with_fuel(field_sum, 9);
}

/// The bytes under which a profile is stored.
pub fn profile_to_bytes(p: &UserProfile) -> (r: Vec<u8>)
    ensures
        r@ == profile_bytes(p@),
        profile_parse(r@) == Some(p@),
{
    let mut fields: Vec<Vec<u8>> = Vec::new();
    fields.push(p.principal.to_bytes());
    fields.push(text_bytes(&p.username));
    fields.push(text_bytes(&p.display_name));
    fields.push(text_bytes(&p.bio));
    fields.push(text_bytes(&p.avatar_url));
    fields.push(u64_to_le_bytes(p.created_at));
    fields.push(u64_to_le_bytes(p.updated_at));
    let mut flag: Vec<u8> = Vec::new();
    flag.push(if p.is_verified { 1u8 } else { 0u8 });
    assert(flag@ =~= seq![flag_byte(p.is_verified)]);
    fields.push(flag);
    proof {
        assert(fields_view(fields@) =~= profile_fields(p@));
        assert(writable(profile_fields(p@))) by {
            assert forall|i: int| 0 <= i < fields@.len() implies (#[trigger] fields_view(
                fields@,
            )[i]).len() <= u64::MAX by {
                assert(fields_view(fields@)[i] == fields@[i]@);
                assert(fields@[i].len() == fields@[i]@.len());
            }
        }
        lemma_profile_round_trip(p@);
    }
    frame_fields(&fields)
}

/// The profile that stored bytes spell; `None` where they spell none.
pub fn profile_from_bytes(bytes: &Vec<u8>) -> (r: Option<UserProfile>)
    ensures
        r is Some <==> profile_parse(bytes@) is Some,
        r is Some ==> r->0@ == profile_parse(bytes@)->0,
{
    let fields = match unframe_fields(bytes) {
        Some(f) => f,
        None => { return None; },
    };
    if fields.len() != 8 {
        return None;
    }
    proof {
        assert forall|i: int| 0 <= i < 8 implies fields_view(fields@)[i] == (
        #[trigger] fields@[i])@ by {}
    }
    let username = match text_from_utf8(fields[1].clone()) {
        Some(t) => t,
        None => { return None; },
    };
    let display_name = match text_from_utf8(fields[2].clone()) {
        Some(t) => t,
        None => { return None; },
    };
    let bio = match text_from_utf8(fields[3].clone()) {
        Some(t) => t,
        None => { return None; },
    };
    let avatar_url = match text_from_utf8(fields[4].clone()) {
        Some(t) => t,
        None => { return None; },
    };
    if fields[5].len() != 8 || fields[6].len() != 8 || fields[7].len() != 1 {
        return None;
    }
    if fields[7][0] > 1 {
        return None;
    }
    Some(
        UserProfile {
            principal: Identity::from_bytes(fields[0].clone()),
            username,
            display_name,
            bio,
            avatar_url,
            created_at: u64_from_le_bytes(fields[5].as_slice()),
            updated_at: u64_from_le_bytes(fields[6].as_slice()),
            is_verified: fields[7][0] == 1,
        },
    )
}

/// The profiles of all users, and the index that finds a profile by its
/// username.
pub struct UserStore {
    users: ByteTable,
    names: ByteTable,
}

impl UserStore {
    /// The profile of each identity that has one.
    pub closed spec fn profiles(&self) -> Map<Seq<u8>, UserProfileView> {
        Map::new(
            |id: Seq<u8>| table_entries(self.users).dom().contains(id),
            |id: Seq<u8>| profile_parse(table_entries(self.users)[id])->0,
        )
    }

    /// Whether `id` has a profile under the username `name`.
    pub open spec fn owns(&self, id: Seq<u8>, name: Seq<char>) -> bool {
        self.profiles().dom().contains(id) && self.profiles()[id].username == name
    }

    /// Whether some identity holds the username `name`.
    pub open spec fn taken(&self, name: Seq<char>) -> bool {
        exists|id: Seq<u8>| self.owns(id, name)
    }

    /// The tables agree: each stored profile reads back, sits under its own
    /// identity, which is not the anonymous one, and is found under its
    /// username; and each username leads to the profile that carries it.
    pub closed spec fn wf(&self) -> bool {
        let users = table_entries(self.users);
        let names = table_entries(self.names);
        &&& forall|id: Seq<u8>| #[trigger]
            users.dom().contains(id) ==> {
                &&& profile_parse(users[id]) is Some
                &&& profile_parse(users[id])->0.principal == id
                &&& id != anonymous_bytes()
                &&& names.dom().contains(encode_utf8(profile_parse(users[id])->0.username))
                &&& names[encode_utf8(profile_parse(users[id])->0.username)] == id
            }
        &&& forall|k: Seq<u8>| #[trigger]
            names.dom().contains(k) ==> {
                &&& users.dom().contains(names[k])
                &&& encode_utf8(profile_parse(users[names[k]])->0.username) == k
            }
    }

    /// What `create_user` answers in a given store.
    pub open spec fn create_user_verdict(
        &self,
        identity: Seq<u8>,
        request: CreateUserRequest,
        now: u64,
    ) -> Result<UserProfileView, SocialError> {
        if identity == anonymous_bytes() {
            Err(SocialError::Unauthenticated)
        } else if self.profiles().dom().contains(identity) {
            Err(SocialError::AlreadyExists)
        } else if self.taken(request.username@) {
            Err(SocialError::UsernameTaken)
        } else if profile_bytes(fresh_profile(identity, request, now)).len() > TABLE_LIMIT {
            Err(SocialError::CapacityExceeded)
        } else {
            Ok(fresh_profile(identity, request, now))
        }
    }

    /// What `update_user` answers in a given store.
    pub open spec fn update_user_verdict(
        &self,
        identity: Seq<u8>,
        request: UpdateUserRequest,
        now: u64,
    ) -> Result<UserProfileView, SocialError> {
        if identity == anonymous_bytes() {
            Err(SocialError::Unauthenticated)
        } else if !self.profiles().dom().contains(identity) {
            Err(SocialError::NotFound)
        } else if profile_bytes(revised_profile(self.profiles()[identity], request, now)).len()
            > TABLE_LIMIT {
            Err(SocialError::CapacityExceeded)
        } else {
            Ok(revised_profile(self.profiles()[identity], request, now))
        }
    }

    /// The index knows a username exactly when some profile carries it.
    proof fn lemma_index_knows(&self, name: Seq<char>)
        requires
            self.wf(),
        ensures
            table_entries(self.names).dom().contains(encode_utf8(name)) <==> self.taken(name),
            table_entries(self.names).dom().contains(encode_utf8(name)) ==> self.owns(
                table_entries(self.names)[encode_utf8(name)],
                name,
            ),
    {
        let users = table_entries(self.users);
        let names = table_entries(self.names);
        let k = encode_utf8(name);
        if names.dom().contains(k) {
            let id = names[k];
            assert(users.dom().contains(id));
            lemma_text_bytes_injective(profile_parse(users[id])->0.username, name);
            assert(self.owns(id, name));
        }
        if self.taken(name) {
            let id = choose|id: Seq<u8>| self.owns(id, name);
            assert(users.dom().contains(id));
        }
    }

    /// No two identities hold the same username.
    pub proof fn lemma_usernames_unique(&self, a: Seq<u8>, b: Seq<u8>)
        requires
            self.wf(),
            self.profiles().dom().contains(a),
            self.profiles().dom().contains(b),
            self.profiles()[a].username == self.profiles()[b].username,
        ensures
            a == b,
    {
        let users = table_entries(self.users);
        assert(users.dom().contains(a));
        assert(users.dom().contains(b));
    }

    /// Each profile is stored under the identity it names, and the anonymous
    /// identity has none.
    pub proof fn lemma_profiles_keyed(&self, id: Seq<u8>)
        requires
            self.wf(),
            self.profiles().dom().contains(id),
        ensures
            self.profiles()[id].principal == id,
            id != anonymous_bytes(),
    {
        assert(table_entries(self.users).dom().contains(id));
    }

    /// A store without users.
    pub fn new() -> (r: UserStore)
        ensures
            r.wf(),
            r.profiles() == Map::<Seq<u8>, UserProfileView>::empty(),
    {
        let tables = tables_open();
        let r = UserStore { users: tables.first, names: tables.second };
        assert(r.profiles() =~= Map::<Seq<u8>, UserProfileView>::empty());
        r
    }

    /// Gives `identity` a profile under the username it asks for.
    pub fn create_user(&mut self, identity: &Identity, request: CreateUserRequest, now: u64) -> (r:
        Result<UserProfile, SocialError>)
        requires
            old(self).wf(),
        ensures
            final(self).wf(),
            match r {
                Ok(p) => old(self).create_user_verdict(identity@, request, now) === Ok(p@)
                    && final(self).profiles() == old(self).profiles().insert(identity@, p@),
                Err(e) => old(self).create_user_verdict(identity@, request, now) === Err(e)
                    && final(self).profiles() == old(self).profiles(),
            },
    {
        if identity.is_anonymous() {
            return Err(SocialError::Unauthenticated);
        }
        let key = identity.to_bytes();
        if table_has(&self.users, &key) {
            return Err(SocialError::AlreadyExists);
        }
        let name_key = text_bytes(&request.username);
        proof {
            self.lemma_index_knows(request.username@);
        }
        if table_has(&self.names, &name_key) {
            return Err(SocialError::UsernameTaken);
        }
        let ghost wanted = fresh_profile(identity@, request, now);
        let profile = UserProfile {
            principal: identity.clone(),
            username: request.username,
            display_name: request.display_name,
            bio: request.bio,
            avatar_url: request.avatar_url,
            created_at: now,
            updated_at: now,
            is_verified: false,
        };
        assert(profile@ == wanted);
        let bytes = profile_to_bytes(&profile);
        if !fits(&bytes) {
            return Err(SocialError::CapacityExceeded);
        }
        proof {
            lemma_frame_holds(profile_fields(profile@), 0);
            lemma_frame_holds(profile_fields(profile@), 1);
        }
        let owner = key.clone();
        table_insert(&mut self.users, key, bytes);
        table_insert(&mut self.names, name_key, owner);
        proof {
            let users0 = table_entries(old(self).users);
            let names0 = table_entries(old(self).names);
            let users1 = table_entries(self.users);
            let names1 = table_entries(self.names);
            assert forall|id: Seq<u8>| #[trigger] users1.dom().contains(id) implies {
                &&& profile_parse(users1[id]) is Some
                &&& profile_parse(users1[id])->0.principal == id
                &&& id != anonymous_bytes()
                &&& names1.dom().contains(encode_utf8(profile_parse(users1[id])->0.username))
                &&& names1[encode_utf8(profile_parse(users1[id])->0.username)] == id
            } by {
                if id != identity@ {
                    assert(users0.dom().contains(id));
                }
            }
            assert forall|k: Seq<u8>| #[trigger] names1.dom().contains(k) implies {
                &&& users1.dom().contains(names1[k])
                &&& encode_utf8(profile_parse(users1[names1[k]])->0.username) == k
            } by {
                if k != name_key@ {
                    assert(names0.dom().contains(k));
                }
            }
            assert(self.profiles() =~= old(self).profiles().insert(identity@, profile@));
        }
        Ok(profile)
    }

    /// Changes the fields of the profile of `identity` that `request` names.
    pub fn update_user(&mut self, identity: &Identity, request: UpdateUserRequest, now: u64) -> (r:
        Result<UserProfile, SocialError>)
        requires
            old(self).wf(),
        ensures
            final(self).wf(),
            match r {
                Ok(p) => old(self).update_user_verdict(identity@, request, now) === Ok(p@)
                    && final(self).profiles() == old(self).profiles().insert(identity@, p@),
                Err(e) => old(self).update_user_verdict(identity@, request, now) === Err(e)
                    && final(self).profiles() == old(self).profiles(),
            },
    {
        if identity.is_anonymous() {
            return Err(SocialError::Unauthenticated);
        }
        let key = identity.to_bytes();
        let stored = match table_get(&self.users, &key) {
            Some(bytes) => bytes,
            None => { return Err(SocialError::NotFound); },
        };
        let mut profile = match profile_from_bytes(&stored) {
            Some(p) => p,
            None => { return Err(SocialError::NotFound); },
        };
        let ghost wanted = revised_profile(self.profiles()[identity@], request, now);
        if let Some(display_name) = request.display_name {
            profile.display_name = display_name;
        }
        if let Some(bio) = request.bio {
            profile.bio = bio;
        }
        if let Some(avatar_url) = request.avatar_url {
            profile.avatar_url = avatar_url;
        }
        profile.updated_at = now;
        assert(profile@ == wanted);
        let bytes = profile_to_bytes(&profile);
        if !fits(&bytes) {
            return Err(SocialError::CapacityExceeded);
        }
        proof {
            lemma_frame_holds(profile_fields(profile@), 0);
        }
        table_insert(&mut self.users, key, bytes);
        proof {
            let users0 = table_entries(old(self).users);
            let names0 = table_entries(old(self).names);
            let users1 = table_entries(self.users);
            assert(users0.dom().contains(identity@));
            assert forall|id: Seq<u8>| #[trigger] users1.dom().contains(id) implies {
                &&& profile_parse(users1[id]) is Some
                &&& profile_parse(users1[id])->0.principal == id
                &&& id != anonymous_bytes()
                &&& names0.dom().contains(encode_utf8(profile_parse(users1[id])->0.username))
                &&& names0[encode_utf8(profile_parse(users1[id])->0.username)] == id
            } by {
                assert(users0.dom().contains(id));
            }
            assert forall|k: Seq<u8>| #[trigger] names0.dom().contains(k) implies {
                &&& users1.dom().contains(names0[k])
                &&& encode_utf8(profile_parse(users1[names0[k]])->0.username) == k
            } by {
                assert(users0.dom().contains(names0[k]));
            }
            assert(self.profiles() =~= old(self).profiles().insert(identity@, profile@));
        }
        Ok(profile)
    }

    /// The profile of `identity`.
    pub fn get_user(&self, identity: &Identity) -> (r: Result<UserProfile, SocialError>)
        requires
            self.wf(),
        ensures
            match r {
                Ok(p) => self.profiles().dom().contains(identity@) && p@
                    == self.profiles()[identity@],
                Err(e) => e == SocialError::NotFound && !self.profiles().dom().contains(
                    identity@,
                ),
            },
    {
        let key = identity.to_bytes();
        match table_get(&self.users, &key) {
            Some(bytes) => match profile_from_bytes(&bytes) {
                Some(p) => Ok(p),
                None => Err(SocialError::NotFound),
            },
            None => Err(SocialError::NotFound),
        }
    }

    /// The profile that carries `username`.
    pub fn get_user_by_username(&self, username: &String) -> (r: Result<UserProfile, SocialError>)
        requires
            self.wf(),
        ensures
            match r {
                Ok(p) => self.owns(p@.principal, username@) && p@
                    == self.profiles()[p@.principal],
                Err(e) => e == SocialError::NotFound && !self.taken(username@),
            },
    {
        let name_key = text_bytes(username);
        proof {
            self.lemma_index_knows(username@);
        }
        let owner = match table_get(&self.names, &name_key) {
            Some(id) => id,
            None => { return Err(SocialError::NotFound); },
        };
        assert(table_entries(self.users).dom().contains(owner@));
        match table_get(&self.users, &owner) {
            Some(bytes) => match profile_from_bytes(&bytes) {
                Some(p) => Ok(p),
                None => Err(SocialError::NotFound),
            },
            None => Err(SocialError::NotFound),
        }
    }

    /// Whether nobody holds `username` yet.
    pub fn username_available(&self, username: &String) -> (r: bool)
        requires
            self.wf(),
        ensures
            r == !self.taken(username@),
    {
        let name_key = text_bytes(username);
        proof {
            self.lemma_index_knows(username@);
        }
        !table_has(&self.names, &name_key)
    }

    /// Every profile once, in ascending order of the identities.
    pub fn list_all_users(&self) -> (r: Vec<UserProfile>)
        requires
            self.wf(),
        ensures
            forall|i: int|
                0 <= i < r@.len() ==> self.profiles().dom().contains(
                    (#[trigger] r@[i])@.principal,
                ) && self.profiles()[r@[i]@.principal] == r@[i]@,
            forall|i: int, j: int|
                0 <= i < j < r@.len() ==> bytes_before(
                    (#[trigger] r@[i])@.principal,
                    (#[trigger] r@[j])@.principal,
                ) && r@[i]@.principal != r@[j]@.principal,
            forall|id: Seq<u8>|
                self.profiles().dom().contains(id) ==> exists|i: int|
                    0 <= i < r@.len() && (#[trigger] r@[i])@.principal == id,
    {
        let entries = table_scan(&self.users);
        let mut out: Vec<UserProfile> = Vec::new();
        let mut i: usize = 0;
        while i < entries.len()
            invariant
                0 <= i <= entries.len(),
                self.wf(),
                out@.len() == i,
                forall|k: int|
                    0 <= k < entries@.len() ==> table_entries(self.users).dom().contains(
                        #[trigger] entries@[k].0@,
                    ) && table_entries(self.users)[entries@[k].0@] == entries@[k].1@,
                forall|k: int|
                    0 <= k < i ==> (#[trigger] out@[k])@.principal == entries@[k].0@ && out@[k]@
                        == self.profiles()[entries@[k].0@],
            decreases entries.len() - i,
        {
            assert(table_entries(self.users).dom().contains(entries@[i as int].0@));
            match profile_from_bytes(&entries[i].1) {
                Some(p) => {
                    out.push(p);
                },
                None => {
                    assert(false);
                },
            }
            i += 1;
        }
        proof {
            assert forall|id: Seq<u8>| self.profiles().dom().contains(id) implies exists|i: int|
                0 <= i < out@.len() && (#[trigger] out@[i])@.principal == id by {
                let k = choose|k: int| 0 <= k < entries@.len() && #[trigger] entries@[k].0@ == id;
                assert(out@[k]@.principal == id);
            }
        }
        out
    }
}

} // verus!
