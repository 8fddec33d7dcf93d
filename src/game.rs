//! The per-game rule model and the eligibility evaluator.
use std::ops::Range;
use vstd::prelude::*;
use vstd::string::*;

verus! {

/// A game's declarative rule set.
///
/// `keys` holds one entry per metadata key, kept in ascending order of the
/// key identifier, so that identifiers are unique (see `keys_well_formed`).
#[derive(Clone, PartialEq, Eq, Debug)]
pub struct Game {
    pub name: String,
    pub main_page: Option<String>,
    pub suffix: String,
    pub uid: UidConfig,
    pub username: UsernameConfig,
    pub keys: Vec<(String, Key)>,
}

#[derive(Clone, Copy, PartialEq, Eq, Debug)]
pub struct UidConfig {
    pub max_length: usize,
}

#[derive(Clone, Copy, PartialEq, Eq, Debug)]
pub struct UsernameConfig {
    pub optional: bool,
    pub max_length: usize,
}

/// A locale-to-text mapping, held as pairs in ascending order of locale
/// (see `loc_ascending`); compared as a mapping, by its set of pairs.
pub type Localizations = Vec<(String, String)>;

/// One metadata key of a game.
#[derive(Clone, PartialEq, Eq, Debug)]
pub struct Key {
    pub ty: KeyType,
    pub name: String,
    pub name_localizations: Option<Localizations>,
    pub description: String,
    pub description_localizations: Option<Localizations>,
}

#[derive(Clone, PartialEq, Eq, Debug)]
pub enum KeyType {
    BoolEq { conditions: Vec<KeyCondition> },
}

#[derive(PartialEq, Eq, Debug)]
pub enum KeyCondition {
    Uid(Range<u64>),
}

impl Clone for KeyCondition {
    fn clone(&self) -> (r: Self)
        ensures
            r == *self,
    {
        match self {
            KeyCondition::Uid(range) => KeyCondition::Uid(Range { start: range.start, end: range.end }),
        }
    }
}

/// The payload sent to Discord for one user: display name of the platform,
/// the user's display name there, and one `"1"`/`"0"` flag per key.
#[derive(Clone, PartialEq, Eq, Debug)]
pub struct PutRoleConnectionInfo {
    pub platform_name: String,
    pub platform_username: String,
    pub metadata: Vec<(String, String)>,
}

/// Lexicographic order on character sequences (by code point).
pub open spec fn str_lt(a: Seq<char>, b: Seq<char>) -> bool
    decreases a.len(),
{
    if a.len() == 0 {
        b.len() > 0
    } else if b.len() == 0 {
        false
    } else if a[0] != b[0] {
        (a[0] as u32) < (b[0] as u32)
    } else {
        str_lt(a.drop_first(), b.drop_first())
    }
}

/// Key identifiers are in strictly ascending order, hence unique.
pub open spec fn keys_well_formed(keys: Seq<(String, Key)>) -> bool {
    forall|i: int, j: int| 0 <= i < j < keys.len() ==> str_lt(#[trigger] keys[i].0@, #[trigger] keys[j].0@)
}

/// A localization mapping as plain values; absent stays distinct from empty.
pub open spec fn loc_pairs(l: Option<Localizations>) -> Option<Seq<(Seq<char>, Seq<char>)>> {
    match l {
        None => None,
        Some(v) => Some(pairs_view(v@)),
    }
}

/// Locales strictly ascend along `p`, hence each occurs once.
pub open spec fn pairs_ascending(p: Seq<(Seq<char>, Seq<char>)>) -> bool {
    forall|i: int, j: int| 0 <= i < j < p.len() ==> str_lt(#[trigger] p[i].0, #[trigger] p[j].0)
}

/// An absent mapping, or one held in ascending order of locale.
pub open spec fn loc_ascending(l: Option<Seq<(Seq<char>, Seq<char>)>>) -> bool {
    match l {
        None => true,
        Some(p) => pairs_ascending(p),
    }
}

/// Both localization mappings of a key are held in ascending order of locale.
pub open spec fn key_locales_ascending(k: Key) -> bool {
    loc_ascending(loc_pairs(k.name_localizations)) && loc_ascending(loc_pairs(k.description_localizations))
}

impl Game {
    /// Key identifiers strictly ascend, and every localization mapping is
    /// held in ascending order of locale.
    pub open spec fn well_formed(&self) -> bool {
        &&& keys_well_formed(self.keys@)
        &&& forall|i: int| 0 <= i < self.keys@.len() ==> key_locales_ascending(#[trigger] self.keys@[i].1)
    }
}

/// Whether one condition holds for `uid`.
pub open spec fn condition_holds(c: KeyCondition, uid: u64) -> bool {
    match c {
        KeyCondition::Uid(r) => r.start <= uid && uid < r.end,
    }
}

/// Whether a key is granted to `uid`: every one of its conditions holds.
pub open spec fn key_eligible(k: Key, uid: u64) -> bool {
    match k.ty {
        KeyType::BoolEq { conditions } => forall|j: int|
            0 <= j < conditions@.len() ==> condition_holds(#[trigger] conditions@[j], uid),
    }
}

/// The wire form of a flag.
pub open spec fn flag_text(b: bool) -> Seq<char> {
    if b {
        seq!['1']
    } else {
        seq!['0']
    }
}

pub open spec fn digit_char(d: nat) -> char {
    seq!['0', '1', '2', '3', '4', '5', '6', '7', '8', '9'][d as int]
}

/// The decimal representation of `n`, without leading zeros.
pub open spec fn decimal(n: nat) -> Seq<char>
    decreases n,
{
    if n < 10 {
        seq![digit_char(n)]
    } else {
        decimal(n / 10) + seq![digit_char(n % 10)]
    }
}

/// The user's display name: the uid alone, or `"{username} ({uid})"`.
pub open spec fn platform_username(uid: u64, username: Seq<char>) -> Seq<char> {
    if username.len() == 0 {
        decimal(uid as nat)
    } else {
        username + seq![' ', '('] + decimal(uid as nat) + seq![')']
    }
}

/// Decimal text of a number.
pub fn decimal_string(n: u64) -> (r: String)
    ensures
        r@ == decimal(n as nat),
{
    let digits: &str = "0123456789";
    proof {
        reveal_strlit("0123456789");
        assert(digits@ =~= seq!['0', '1', '2', '3', '4', '5', '6', '7', '8', '9']);
    }
    let mut rest: u64 = n;
    let mut out = String::new();
    loop
        invariant
            decimal(n as nat) =~= decimal(rest as nat) + out@,
            digits@ =~= seq!['0', '1', '2', '3', '4', '5', '6', '7', '8', '9'],
        decreases rest,
    {
        let d: usize = (rest % 10) as usize;
        let one: &str = digits.substring_char(d, d + 1);
        assert(one@ =~= seq![digit_char(d as nat)]);
        let next = String::from_str(one).concat(out.as_str());
        if rest < 10 {
            assert(decimal(rest as nat) =~= one@);
            return next;
        }
        assert(decimal(rest as nat) == decimal((rest / 10) as nat) + one@);
        assert(decimal(rest as nat) + out@ =~= decimal((rest / 10) as nat) + next@);
        out = next;
        rest = rest / 10;
    }
}

/// Whether every condition of `k` holds for `uid`.
pub fn key_granted(k: &Key, uid: u64) -> (r: bool)
    ensures
        r == key_eligible(*k, uid),
{
    match &k.ty {
        KeyType::BoolEq { conditions } => {
            let mut i: usize = 0;
            while i < conditions.len()
                invariant
                    i <= conditions@.len(),
                    k.ty == (KeyType::BoolEq { conditions: *conditions }),
                    forall|j: int| 0 <= j < i ==> condition_holds(#[trigger] conditions@[j], uid),
                decreases conditions@.len() - i,
            {
                let holds = match &conditions[i] {
                    KeyCondition::Uid(range) => range.start <= uid && uid < range.end,
                };
                if !holds {
                    assert(!condition_holds(k.ty->conditions@[i as int], uid));
                    return false;
                }
                i = i + 1;
            }
            true
        },
    }
}

/// The user's display name on the platform: the uid alone when `username`
/// is empty, else `"{username} ({uid})"`.
pub fn format_platform_username(uid: u64, username: &str) -> (r: String)
    ensures
        r@ == platform_username(uid, username@),
{
    let digits = decimal_string(uid);
    if username.unicode_len() == 0 {
        digits
    } else {
        proof {
            reveal_strlit(" (");
            reveal_strlit(")");
        }
        let r = String::from_str(username).concat(" (").concat(digits.as_str()).concat(")");
        assert(r@ =~= platform_username(uid, username@));
        r
    }
}

impl Game {
    /// The role-connection payload for one user: the game's name, the
    /// user's display name, and for each key, in the game's key order, the
    /// key identifier with `"1"` when all its conditions hold for `uid` and
    /// `"0"` otherwise.
    pub fn make_role_connection_info(&self, uid: u64, username: &str) -> (r: PutRoleConnectionInfo)
        ensures
            is_role_connection_info(*self, uid, username@, r),
    {
        let mut metadata: Vec<(String, String)> = Vec::new();
        let mut i: usize = 0;
        while i < self.keys.len()
            invariant
                i <= self.keys@.len(),
                pairs_view(metadata@) =~= role_metadata(self.keys@.subrange(0, i as int), uid),
            decreases self.keys@.len() - i,
        {
            let flag: &str = if key_granted(&self.keys[i].1, uid) {
                "1"
            } else {
                "0"
            };
            proof {
                reveal_strlit("1");
                reveal_strlit("0");
            }
            let id = self.keys[i].0.clone();
            let value = String::from_str(flag);
            assert(value@ == flag_text(key_eligible(self.keys@[i as int].1, uid)));
            let ghost before = metadata@;
            metadata.push((id, value));
            assert(metadata@ == before.push((id, value)));
            assert(self.keys@.subrange(0, i + 1) =~= self.keys@.subrange(0, i as int).push(self.keys@[i as int]));
            assert(pairs_view(metadata@) =~= pairs_view(before).push((id@, value@)));
            assert(role_metadata(self.keys@.subrange(0, i + 1), uid) =~= role_metadata(self.keys@.subrange(0, i as int), uid).push((id@, value@)));
            i = i + 1;
        }
        assert(self.keys@.subrange(0, i as int) =~= self.keys@);
        PutRoleConnectionInfo {
            platform_name: self.name.clone(),
            platform_username: format_platform_username(uid, username),
            metadata,
        }
    }
}

/// The metadata pairs as text.
pub open spec fn pairs_view(m: Seq<(String, String)>) -> Seq<(Seq<char>, Seq<char>)> {
    m.map_values(|p: (String, String)| (p.0@, p.1@))
}

/// For each key, its identifier and the wire form of its flag for `uid`.
pub open spec fn role_metadata(keys: Seq<(String, Key)>, uid: u64) -> Seq<(Seq<char>, Seq<char>)> {
    keys.map_values(|p: (String, Key)| (p.0@, flag_text(key_eligible(p.1, uid))))
}

/// Whether `r` is the role-connection payload of `game` for `uid` and
/// `username`.
pub open spec fn is_role_connection_info(game: Game, uid: u64, username: Seq<char>, r: PutRoleConnectionInfo) -> bool {
    &&& r.platform_name@ == game.name@
    &&& r.platform_username@ == platform_username(uid, username)
    &&& pairs_view(r.metadata@) == role_metadata(game.keys@, uid)
}

/// Evaluation is deterministic: two payloads for the same game, uid and
/// username carry the same names and the same flags.
pub proof fn lemma_evaluation_deterministic(
    game: Game,
    uid: u64,
    username: Seq<char>,
    r1: PutRoleConnectionInfo,
    r2: PutRoleConnectionInfo,
)
    requires
        is_role_connection_info(game, uid, username, r1),
        is_role_connection_info(game, uid, username, r2),
    ensures
        r1.platform_name@ == r2.platform_name@,
        r1.platform_username@ == r2.platform_username@,
        pairs_view(r1.metadata@) == pairs_view(r2.metadata@),
{
}

} // verus!
