//! Users, groups and the owner/group/other permission model.

use vstd::prelude::*;

verus! {

/// Read bit of an rwx mask.
pub const READ_BIT: u8 = 0b100;

/// Write bit of an rwx mask.
pub const WRITE_BIT: u8 = 0b010;

/// Execute bit of an rwx mask.
pub const EXECUTE_BIT: u8 = 0b001;

/// What a `User` is, as plain values.
pub struct UserView {
    pub id: u16,
    pub name: Seq<char>,
    pub permissions: u8,
    pub groups: Seq<u16>,
}

/// What a `Group` is, as plain values.
pub struct GroupView {
    pub id: u16,
    pub name: Seq<char>,
    pub permissions: u8,
}

/// What a `Permissions` value is, as plain values.
pub struct PermissionsView {
    pub owner_id: u16,
    pub group_ids: Seq<u16>,
    pub owner_perms: u8,
    pub group_perms: u8,
    pub other_perms: u8,
}

/// A user: an id, a unique name, a default rwx mask and the ids of the groups
/// it belongs to.
#[derive(Debug, Clone)]
pub struct User {
    id: u16,
    name: String,
    permissions: u8,
    groups: Vec<u16>,
}

/// A group: an id, a unique name and a default rwx mask.
#[derive(Debug, Clone)]
pub struct Group {
    id: u16,
    name: String,
    permissions: u8,
}

/// Owner id, the group ids authorised at group level, and the three rwx masks.
#[derive(Debug, Clone)]
pub struct Permissions {
    owner_id: u16,
    group_ids: Vec<u16>,
    owner_perms: u8,
    group_perms: u8,
    other_perms: u8,
}

impl View for User {
    type V = UserView;

    closed spec fn view(&self) -> UserView {
        UserView { id: self.id, name: self.name@, permissions: self.permissions, groups: self.groups@ }
    }
}

impl View for Group {
    type V = GroupView;

    closed spec fn view(&self) -> GroupView {
        GroupView { id: self.id, name: self.name@, permissions: self.permissions }
    }
}

impl View for Permissions {
    type V = PermissionsView;

    closed spec fn view(&self) -> PermissionsView {
        PermissionsView {
            owner_id: self.owner_id,
            group_ids: self.group_ids@,
            owner_perms: self.owner_perms,
            group_perms: self.group_perms,
            other_perms: self.other_perms,
        }
    }
}

/// Owned by id 0, rwx for everyone.
pub open spec fn public_view() -> PermissionsView {
    PermissionsView { owner_id: 0, group_ids: Seq::empty(), owner_perms: 0b111, group_perms: 0b111, other_perms: 0b111 }
}

/// Owned by `owner_id`, rwx for the owner and nothing for anyone else.
pub open spec fn private_view(owner_id: u16) -> PermissionsView {
    PermissionsView { owner_id, group_ids: Seq::empty(), owner_perms: 0b111, group_perms: 0, other_perms: 0 }
}

/// Some group id of `authorised` is among `membership`.
pub open spec fn shares_group(membership: Seq<u16>, authorised: Seq<u16>) -> bool {
    exists|i: int| 0 <= i < authorised.len() && membership.contains(#[trigger] authorised[i])
}

/// The mask that applies to `u`: the owner's if `u` owns the entry, else the
/// group mask if `u` is in an authorised group, else the mask for others.
pub open spec fn mask_for(p: PermissionsView, u: UserView) -> u8 {
    if u.id == p.owner_id {
        p.owner_perms
    } else if shares_group(u.groups, p.group_ids) {
        p.group_perms
    } else {
        p.other_perms
    }
}

/// `u` holds every bit of `bit` under `p`.
pub open spec fn grants(p: PermissionsView, u: UserView, bit: u8) -> bool {
    mask_for(p, u) & bit == bit
}

/// Whoever owns an entry gets the owner mask, whatever groups they are in and
/// whatever the group mask says.
pub proof fn lemma_owner_mask_takes_precedence(p: PermissionsView, u: UserView, bit: u8)
    requires
        u.id == p.owner_id,
    ensures
        mask_for(p, u) == p.owner_perms,
        grants(p, u, bit) == (p.owner_perms & bit == bit),
{
}

impl User {
    /// A user with id 0 (to be numbered when registered) and no groups.
    pub fn new(name: &str, permissions: u8) -> (r: User)
        ensures
            r@ == (UserView { id: 0, name: name@, permissions, groups: Seq::empty() }),
    {
        User { id: 0, name: name.to_string(), permissions, groups: Vec::new() }
    }

    /// A user whose id is set already, with no groups.
    pub fn with_id(name: &str, permissions: u8, id: u16) -> (r: User)
        ensures
            r@ == (UserView { id, name: name@, permissions, groups: Seq::empty() }),
    {
        User { id, name: name.to_string(), permissions, groups: Vec::new() }
    }

    pub fn id(&self) -> (r: u16)
        ensures
            r == self@.id,
    {
        self.id
    }

    pub fn name(&self) -> (r: &str)
        ensures
            r@ == self@.name,
    {
        self.name.as_str()
    }

    pub fn permissions(&self) -> (r: u8)
        ensures
            r == self@.permissions,
    {
        self.permissions
    }

    pub(crate) fn name_string(&self) -> (r: &String)
        ensures
            r@ == self@.name,
    {
        &self.name
    }

    pub fn groups(&self) -> (r: &Vec<u16>)
        ensures
            r@ == self@.groups,
    {
        &self.groups
    }

    /// Adds `group_id` to the groups this user belongs to.
    pub fn join_group(&mut self, group_id: u16)
        ensures
            final(self)@ == (UserView { groups: old(self)@.groups.push(group_id), ..old(self)@ }),
    {
        self.groups.push(group_id);
    }

    /// The id of this user with every other field kept.
    pub(crate) fn set_id(&mut self, id: u16)
        ensures
            final(self)@ == (UserView { id, ..old(self)@ }),
    {
        self.id = id;
    }

    /// A copy of this user.
    pub fn duplicate(&self) -> (r: User)
        ensures
            r@ == self@,
    {
        User { id: self.id, name: self.name.clone(), permissions: self.permissions, groups: self.groups.clone() }
    }

    /// This user belongs to one of the groups in `group_ids`.
    pub fn is_member_of_any(&self, group_ids: &Vec<u16>) -> (r: bool)
        ensures
            r == shares_group(self@.groups, group_ids@),
    {
        let mut i: usize = 0;
        while i < group_ids.len()
            invariant
                0 <= i <= group_ids.len(),
                forall|k: int| 0 <= k < i ==> !self.groups@.contains(#[trigger] group_ids@[k]),
            decreases group_ids.len() - i,
        {
            let g = group_ids[i];
            let mut j: usize = 0;
            while j < self.groups.len()
                invariant
                    0 <= i < group_ids.len(),
                    g == group_ids@[i as int],
                    0 <= j <= self.groups.len(),
                    forall|k: int| 0 <= k < j ==> self.groups@[k] != g,
                decreases self.groups.len() - j,
            {
                if self.groups[j] == g {
                    assert(self.groups@[j as int] == group_ids@[i as int]);
                    return true;
                }
                j += 1;
            }
            assert(!self.groups@.contains(group_ids@[i as int]));
            i += 1;
        }
        false
    }
}

impl Default for User {
    /// The root-equivalent user: id 0, named `root`, full rwx.
    fn default() -> (r: User)
        ensures
            r@.id == 0,
            r@.name == "root"@,
            r@.permissions == 0b111u8,
            r@.groups == Seq::<u16>::empty(),
    {
        User { id: 0, name: "root".to_string(), permissions: 0b111, groups: Vec::new() }
    }
}

impl Group {
    pub fn new(name: &str, permissions: u8, id: u16) -> (r: Group)
        ensures
            r@ == (GroupView { id, name: name@, permissions }),
    {
        Group { id, name: name.to_string(), permissions }
    }

    pub fn id(&self) -> (r: u16)
        ensures
            r == self@.id,
    {
        self.id
    }

    pub fn name(&self) -> (r: &str)
        ensures
            r@ == self@.name,
    {
        self.name.as_str()
    }

    pub fn permissions(&self) -> (r: u8)
        ensures
            r == self@.permissions,
    {
        self.permissions
    }
}

impl Group {
    pub(crate) fn name_string(&self) -> (r: &String)
        ensures
            r@ == self@.name,
    {
        &self.name
    }
}

impl Permissions {
    pub fn new(owner_id: u16, group_ids: Vec<u16>, owner_perms: u8, group_perms: u8, other_perms: u8) -> (r: Permissions)
        ensures
            r@ == (PermissionsView { owner_id, group_ids: group_ids@, owner_perms, group_perms, other_perms }),
    {
        Permissions { owner_id, group_ids, owner_perms, group_perms, other_perms }
    }

    pub fn owner_id(&self) -> (r: u16)
        ensures
            r == self@.owner_id,
    {
        self.owner_id
    }

    pub fn group_ids(&self) -> (r: &Vec<u16>)
        ensures
            r@ == self@.group_ids,
    {
        &self.group_ids
    }

    pub fn owner_perms(&self) -> (r: u8)
        ensures
            r == self@.owner_perms,
    {
        self.owner_perms
    }

    pub fn group_perms(&self) -> (r: u8)
        ensures
            r == self@.group_perms,
    {
        self.group_perms
    }

    pub fn other_perms(&self) -> (r: u8)
        ensures
            r == self@.other_perms,
    {
        self.other_perms
    }

    /// The union of the three masks.
    pub fn to_full_permissions(&self) -> (r: u8)
        ensures
            r == self@.owner_perms | self@.group_perms | self@.other_perms,
    {
        self.owner_perms | self.group_perms | self.other_perms
    }

    /// A copy of these permissions.
    pub fn duplicate(&self) -> (r: Permissions)
        ensures
            r@ == self@,
    {
        Permissions {
            owner_id: self.owner_id,
            group_ids: self.group_ids.clone(),
            owner_perms: self.owner_perms,
            group_perms: self.group_perms,
            other_perms: self.other_perms,
        }
    }

    /// The mask that applies to `user`, in order owner, group, other.
    fn mask_for(&self, user: &User) -> (r: u8)
        ensures
            r == mask_for(self@, user@),
    {
        if user.id == self.owner_id {
            self.owner_perms
        } else if user.is_member_of_any(&self.group_ids) {
            self.group_perms
        } else {
            self.other_perms
        }
    }

    /// `user` holds every bit of `bit`.
    pub fn grants(&self, user: &User, bit: u8) -> (r: bool)
        ensures
            r == grants(self@, user@, bit),
    {
        self.mask_for(user) & bit == bit
    }

    pub fn can_read(&self, user: Box<User>) -> (r: bool)
        ensures
            r == grants(self@, user@, READ_BIT),
    {
        self.grants(&user, READ_BIT)
    }

    pub fn can_write(&self, user: Box<User>) -> (r: bool)
        ensures
            r == grants(self@, user@, WRITE_BIT),
    {
        self.grants(&user, WRITE_BIT)
    }

    pub fn can_execute(&self, user: Box<User>) -> (r: bool)
        ensures
            r == grants(self@, user@, EXECUTE_BIT),
    {
        self.grants(&user, EXECUTE_BIT)
    }

    /// Owned by id 0, rwx for the owner and nothing for anyone else.
    pub fn private_perms_for_root() -> (r: Permissions)
        ensures
            r@ == private_view(0),
    {
        Permissions { owner_id: 0, group_ids: Vec::new(), owner_perms: 0b111, group_perms: 0b000, other_perms: 0b000 }
    }

    /// Owned by id 0, rwx for everyone.
    pub fn public_perms() -> (r: Permissions)
        ensures
            r@ == public_view(),
    {
        Permissions { owner_id: 0, group_ids: Vec::new(), owner_perms: 0b111, group_perms: 0b111, other_perms: 0b111 }
    }

    /// Owned by `user`, rwx for the owner and nothing for anyone else.
    pub fn private_perms_for(user: Box<User>) -> (r: Permissions)
        ensures
            r@ == private_view(user@.id),
    {
        Permissions { owner_id: user.id, group_ids: Vec::new(), owner_perms: 0b111, group_perms: 0b000, other_perms: 0b000 }
    }
}

impl Default for Permissions {
    /// The same as `private_perms_for_root`.
    fn default() -> (r: Permissions)
        ensures
            r@ == private_view(0),
    {
        Permissions::private_perms_for_root()
    }
}

} // verus!
