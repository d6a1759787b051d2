//! The stored connections, kept in the order in which the configuration table lists
//! them (by `sort`, then by name), and the application settings.
use vstd::prelude::*;
use crate::models::OssConfig;
use crate::settings::flag_value;
use crate::secret::{aes_gcm_max_plaintext, base64_length_fits, decrypt_secret, encrypt_secret, opened_secret, sealed_by, SecretError, SecretFault};
use vstd::utf8::encode_utf8;
use crate::text::{
    lemma_text_le_reflexive, lemma_text_le_total, lemma_text_le_transitive, push_str, same_text, text_le,
    text_less_or_equal,
};

verus! {

/// Whether `a` is listed no later than `b`: by `sort`, then by name.
pub open spec fn config_le(a: OssConfig, b: OssConfig) -> bool {
    a.sort < b.sort || (a.sort == b.sort && text_le(a.name@, b.name@))
}

/// Whether `s` is in listing order.
pub open spec fn sorted_configs(s: Seq<OssConfig>) -> bool {
    forall|i: int, j: int| 0 <= i < j < s.len() ==> config_le(s[i], s[j])
}

proof fn lemma_config_le_total(a: OssConfig, b: OssConfig)
    ensures
        config_le(a, b) || config_le(b, a),
{
    lemma_text_le_total(a.name@, b.name@);
}

proof fn lemma_config_le_transitive(a: OssConfig, b: OssConfig, c: OssConfig)
    requires
        config_le(a, b),
        config_le(b, c),
    ensures
        config_le(a, c),
{
    if a.sort == b.sort && b.sort == c.sort {
        lemma_text_le_transitive(a.name@, b.name@, c.name@);
    }
}

/// How many entries at the front of `s` are listed no later than `x`: where `x`
/// goes in `s`, after the entries that it does not precede.
pub open spec fn insertion_point(s: Seq<OssConfig>, x: OssConfig) -> nat
    decreases s.len(),
{
    if s.len() > 0 && config_le(s[0], x) {
        1 + insertion_point(s.drop_first(), x)
    } else {
        0
    }
}

/// `s` with `x` placed at its insertion point.
pub open spec fn insert_in_order(s: Seq<OssConfig>, x: OssConfig) -> Seq<OssConfig> {
    s.insert(insertion_point(s, x) as int, x)
}

/// `s` in listing order: each entry inserted in turn, so that entries with the same
/// `sort` and name keep their relative order.
pub open spec fn in_order(s: Seq<OssConfig>) -> Seq<OssConfig>
    decreases s.len(),
{
    if s.len() == 0 {
        s
    } else {
        insert_in_order(in_order(s.drop_last()), s.last())
    }
}

proof fn lemma_insertion_point_at(s: Seq<OssConfig>, x: OssConfig, k: int)
    requires
        0 <= k <= s.len(),
        forall|i: int| 0 <= i < k ==> config_le(#[trigger] s[i], x),
        k == s.len() || !config_le(s[k], x),
    ensures
        insertion_point(s, x) == k,
    decreases k,
{
    if k > 0 {
        lemma_insertion_point_at(s.drop_first(), x, k - 1);
    }
}

proof fn lemma_insertion_point_props(s: Seq<OssConfig>, x: OssConfig)
    ensures
        insertion_point(s, x) <= s.len(),
        forall|i: int| 0 <= i < insertion_point(s, x) ==> config_le(#[trigger] s[i], x),
        insertion_point(s, x) == s.len() || !config_le(s[insertion_point(s, x) as int], x),
    decreases s.len(),
{
    if s.len() > 0 && config_le(s[0], x) {
        let t = s.drop_first();
        lemma_insertion_point_props(t, x);
        assert forall|i: int| 0 <= i < insertion_point(s, x) implies config_le(#[trigger] s[i], x) by {
            if i > 0 {
                assert(s[i] == t[i - 1]);
            }
        }
    }
}

/// Inserting at the insertion point keeps a list in order.
proof fn lemma_insert_in_order_sorted(s: Seq<OssConfig>, x: OssConfig)
    requires
        sorted_configs(s),
    ensures
        sorted_configs(insert_in_order(s, x)),
        insert_in_order(s, x).len() == s.len() + 1,
{
    lemma_insertion_point_props(s, x);
    let k = insertion_point(s, x) as int;
    let r = insert_in_order(s, x);
    assert forall|i: int, j: int| 0 <= i < j < r.len() implies config_le(r[i], r[j]) by {
        if k < s.len() {
            lemma_config_le_total(s[k], x);
        }
        if j < k {
        } else if j == k {
            assert(config_le(s[i], x));
        } else if i < k {
            assert(r[j] == s[j - 1] && r[i] == s[i]);
        } else if i == k {
            assert(r[j] == s[j - 1]);
            if k < j - 1 {
                lemma_config_le_transitive(x, s[k], s[j - 1]);
            }
        } else {
            assert(r[i] == s[i - 1] && r[j] == s[j - 1]);
        }
    }
}

/// `in_order` gives a list in order, of the same length.
pub proof fn lemma_in_order_sorted(s: Seq<OssConfig>)
    ensures
        sorted_configs(in_order(s)),
        in_order(s).len() == s.len(),
    decreases s.len(),
{
    if s.len() > 0 {
        lemma_in_order_sorted(s.drop_last());
        lemma_insert_in_order_sorted(in_order(s.drop_last()), s.last());
    }
}

/// Whether `a` is listed no later than `b`.
fn config_less_or_equal(a: &OssConfig, b: &OssConfig) -> (le: bool)
    ensures
        le == config_le(*a, *b),
{
    a.sort < b.sort || (a.sort == b.sort && text_less_or_equal(a.name.as_str(), b.name.as_str()))
}

/// Places `x` at its insertion point in the ordered list `v`.
fn insert_config_in_order(v: &mut Vec<OssConfig>, x: OssConfig)
    requires
        sorted_configs(old(v)@),
    ensures
        final(v)@ == insert_in_order(old(v)@, x),
        sorted_configs(final(v)@),
{
    let mut k: usize = 0;
    while k < v.len() && config_less_or_equal(&v[k], &x)
        invariant
            k <= v@.len(),
            forall|i: int| 0 <= i < k ==> config_le(#[trigger] v@[i], x),
        decreases v@.len() - k,
    {
        k = k + 1;
    }
    proof {
        lemma_insertion_point_at(v@, x, k as int);
        lemma_insert_in_order_sorted(v@, x);
    }
    v.insert(k, x);
}

/// The entries of `s` in listing order.
fn order_configs(s: &Vec<OssConfig>) -> (r: Vec<OssConfig>)
    ensures
        r@ == in_order(s@),
        sorted_configs(r@),
{
    let mut r: Vec<OssConfig> = Vec::new();
    let mut i: usize = 0;
    while i < s.len()
        invariant
            i <= s@.len(),
            r@ == in_order(s@.take(i as int)),
            sorted_configs(r@),
        decreases s@.len() - i,
    {
        proof {
            assert(s@.take(i + 1).drop_last() =~= s@.take(i as int));
        }
        insert_config_in_order(&mut r, s[i].copy());
        i = i + 1;
    }
    assert(s@.take(s@.len() as int) =~= s@);
    r
}

/// `s` without the entries whose id is `id`.
pub open spec fn without_id(s: Seq<OssConfig>, id: Seq<char>) -> Seq<OssConfig>
    decreases s.len(),
{
    if s.len() == 0 {
        s
    } else {
        let rest = without_id(s.drop_last(), id);
        if s.last().id@ == id {
            rest
        } else {
            rest.push(s.last())
        }
    }
}

/// Whether some entry of `s` has the id `id`.
pub open spec fn has_id(s: Seq<OssConfig>, id: Seq<char>) -> bool {
    exists|i: int| 0 <= i < s.len() && (#[trigger] s[i]).id@ == id
}

/// The position of the first entry of `s` with the id `id`, if any.
pub open spec fn first_with_id(s: Seq<OssConfig>, id: Seq<char>) -> Option<int>
    decreases s.len(),
{
    if s.len() == 0 {
        None
    } else if s[0].id@ == id {
        Some(0)
    } else {
        match first_with_id(s.drop_first(), id) {
            Some(i) => Some(i + 1),
            None => None,
        }
    }
}

proof fn lemma_first_with_id_at(s: Seq<OssConfig>, id: Seq<char>, k: int)
    requires
        0 <= k <= s.len(),
        forall|i: int| 0 <= i < k ==> (#[trigger] s[i]).id@ != id,
        k == s.len() || s[k].id@ == id,
    ensures
        first_with_id(s, id) == (if k < s.len() { Some(k) } else { None::<int> }),
    decreases k,
{
    if k > 0 {
        lemma_first_with_id_at(s.drop_first(), id, k - 1);
    }
}

/// The entries of the ordered list `s` without those whose id is `id`, and whether
/// one was dropped.
fn drop_id(s: &Vec<OssConfig>, id: &str) -> (r: (Vec<OssConfig>, bool))
    requires
        sorted_configs(s@),
    ensures
        r.0@ == without_id(s@, id@),
        sorted_configs(r.0@),
        r.1 == has_id(s@, id@),
{
    let mut kept: Vec<OssConfig> = Vec::new();
    let mut dropped = false;
    let mut i: usize = 0;
    while i < s.len()
        invariant
            i <= s@.len(),
            sorted_configs(s@),
            kept@ == without_id(s@.take(i as int), id@),
            sorted_configs(kept@),
            forall|m: int, j: int| 0 <= m < kept@.len() && i <= j < s@.len() ==> config_le(kept@[m], s@[j]),
            dropped == has_id(s@.take(i as int), id@),
        decreases s@.len() - i,
    {
        proof {
            assert(s@.take(i + 1).drop_last() =~= s@.take(i as int));
            assert(s@.take(i + 1).last() == s@[i as int]);
        }
        if same_text(s[i].id.as_str(), id) {
            dropped = true;
            assert(s@.take(i + 1)[i as int].id@ == id@);
        } else {
            kept.push(s[i].copy());
            proof {
                if has_id(s@.take(i + 1), id@) {
                    let w = choose|w: int| 0 <= w < i + 1 && (#[trigger] s@.take(i + 1)[w]).id@ == id@;
                    assert(s@.take(i as int)[w] == s@.take(i + 1)[w]);
                }
            }
        }
        proof {
            if has_id(s@.take(i as int), id@) {
                let w = choose|w: int| 0 <= w < i && (#[trigger] s@.take(i as int)[w]).id@ == id@;
                assert(s@.take(i + 1)[w] == s@.take(i as int)[w]);
            }
        }
        i = i + 1;
    }
    assert(s@.take(s@.len() as int) =~= s@);
    (kept, dropped)
}

/// The largest `sort` among `s`, or 0 for none (`COALESCE(MAX(sort), 0)`).
pub open spec fn max_sort(s: Seq<OssConfig>) -> int
    decreases s.len(),
{
    if s.len() == 0 {
        0
    } else if s.len() == 1 {
        s[0].sort as int
    } else if max_sort(s.drop_last()) >= s.last().sort {
        max_sort(s.drop_last())
    } else {
        s.last().sort as int
    }
}

/// `config` as it is stored among `s`: its own `sort` where that is positive, else
/// 1000 past the largest `sort` stored.
pub open spec fn placed(s: Seq<OssConfig>, config: OssConfig) -> OssConfig {
    if config.sort > 0 {
        config
    } else {
        OssConfig { sort: (max_sort(s) + 1000) as i64, ..config }
    }
}

/// The positions given by a reordering: `sort` is 1000 times one more than the
/// last position of the entry's id in `ids`; entries not named keep their `sort`.
pub open spec fn last_position(ids: Seq<Seq<char>>, id: Seq<char>) -> Option<int>
    decreases ids.len(),
{
    if ids.len() == 0 {
        None
    } else if ids.last() == id {
        Some(ids.len() - 1)
    } else {
        last_position(ids.drop_last(), id)
    }
}

/// `c` with the `sort` that the reordering `ids` gives it.
pub open spec fn reordered(c: OssConfig, ids: Seq<Seq<char>>) -> OssConfig {
    match last_position(ids, c.id@) {
        Some(i) => OssConfig { sort: ((i + 1) * 1000) as i64, ..c },
        None => c,
    }
}

/// The views of a list of strings.
pub open spec fn texts(v: Seq<String>) -> Seq<Seq<char>> {
    v.map_values(|s: String| s@)
}

/// The sort key for the `index`-th position of a list: `(index + 1) * 1000`.
pub fn sort_value_for_position(index: usize) -> (sort: i64)
    requires
        index < 9223372036854775,
    ensures
        sort == (index + 1) * 1000,
{
    (index as i64 + 1) * 1000
}

/// A release that an update check saw, as it is recorded.
#[derive(Debug, Clone)]
pub struct ReleaseVersionRecord {
    pub version: String,
    pub tag_name: String,
    pub name: Option<String>,
    pub release_url: Option<String>,
    pub body: Option<String>,
    pub published_at: Option<String>,
}

/// Why a configuration operation failed.
#[derive(Debug, Clone, PartialEq, Eq)]
pub enum ConfigError {
    /// Loading the store failed with this message.
    Init(String),
    /// The database path is not known.
    DatabaseNotInitialized,
    /// The key path is not known.
    KeyNotInitialized,
    /// No stored connection has the id.
    NotFound,
}

impl ConfigError {
    /// The text of the message shown to the user: the loading error as it was
    /// reported, or a fixed message.
    pub open spec fn message_text(&self) -> Seq<char> {
        match self {
            ConfigError::Init(e) => e@,
            ConfigError::DatabaseNotInitialized => "配置数据库未初始化"@,
            ConfigError::KeyNotInitialized => "配置密钥未初始化"@,
            ConfigError::NotFound => "未找到该配置"@,
        }
    }

    /// The message shown to the user.
    pub fn message(&self) -> (m: String)
        ensures
            m@ == self.message_text(),
    {
        match self {
            ConfigError::Init(e) => e.clone(),
            ConfigError::DatabaseNotInitialized => "配置数据库未初始化".to_string(),
            ConfigError::KeyNotInitialized => "配置密钥未初始化".to_string(),
            ConfigError::NotFound => "未找到该配置".to_string(),
        }
    }
}

/// What loading the store produced: the stored connections as the table lists them,
/// and where the database and the key file are.
pub struct LoadedConfig {
    pub oss: Vec<OssConfig>,
    pub db_path: String,
    pub key_path: String,
}

/// The stored connections and where they are kept. Where loading failed, every
/// operation answers with the loading error.
pub struct AppConfig {
    oss: Vec<OssConfig>,
    db_path: Option<String>,
    key_path: Option<String>,
    init_error: Option<String>,
}

impl Default for AppConfig {
    /// A store with no connections, no known paths and no loading error: every
    /// operation on it answers that the database is not initialised.
    fn default() -> (c: Self)
        ensures
            c.entries().len() == 0,
            c.spec_db_path() is None,
            c.spec_key_path() is None,
            c.spec_init_error() is None,
            c.readiness_error() == Some(ConfigError::DatabaseNotInitialized),
            sorted_configs(c.entries()),
    {
        AppConfig { oss: Vec::new(), db_path: None, key_path: None, init_error: None }
    }
}

impl AppConfig {
    /// The integer stored for a flag.
    pub fn bool_to_i64(value: bool) -> (v: i64)
        ensures
            v == flag_value(value),
    {
        crate::settings::bool_to_i64(value)
    }

    /// Whether a stored integer means `true`: any non-zero value does.
    pub fn i64_to_bool(value: i64) -> (b: bool)
        ensures
            b == (value != 0),
    {
        crate::settings::i64_to_bool(value)
    }

    /// Whether a release version was skipped, from the result of looking up its row:
    /// its `skipped` column where there is a row, else not.
    pub fn skipped_from_row(skipped: Option<i64>) -> (b: bool)
        ensures
            b == (skipped matches Some(v) && v != 0),
    {
        match skipped {
            Some(v) => AppConfig::i64_to_bool(v),
            None => false,
        }
    }

    /// The stored connections, in the order in which they are listed.
    pub closed spec fn entries(&self) -> Seq<OssConfig> {
        self.oss@
    }

    /// The store's invariant: its connections are kept in listing order.
    #[verifier::type_invariant]
    spec fn well_formed(self) -> bool {
        sorted_configs(self.oss@)
    }

    /// The error that loading produced, if any.
    pub closed spec fn spec_init_error(&self) -> Option<String> {
        self.init_error
    }

    /// The database path, if known.
    pub closed spec fn spec_db_path(&self) -> Option<String> {
        self.db_path
    }

    /// The key path, if known.
    pub closed spec fn spec_key_path(&self) -> Option<String> {
        self.key_path
    }

    /// The error that each operation answers with, if any: the loading error first,
    /// then a missing database path, then a missing key path.
    pub open spec fn readiness_error(&self) -> Option<ConfigError> {
        match self.spec_init_error() {
            Some(e) => Some(ConfigError::Init(e)),
            None => if self.spec_db_path() is None {
                Some(ConfigError::DatabaseNotInitialized)
            } else if self.spec_key_path() is None {
                Some(ConfigError::KeyNotInitialized)
            } else {
                None
            },
        }
    }

    /// The store as loaded: the connections in listing order, or, where loading
    /// failed, no connections and the loading error.
    pub fn new(loaded: Result<LoadedConfig, String>) -> (c: AppConfig)
        ensures
            match loaded {
                Ok(l) => c.entries() == in_order(l.oss@) && c.spec_db_path() == Some(l.db_path)
                    && c.spec_key_path() == Some(l.key_path) && c.spec_init_error() is None,
                Err(e) => c.entries().len() == 0 && c.spec_init_error() == Some(e) && c.spec_db_path() is None
                    && c.spec_key_path() is None,
            },
            sorted_configs(c.entries()),
    {
        match loaded {
            Ok(l) => {
                let oss = order_configs(&l.oss);
                AppConfig { oss, db_path: Some(l.db_path), key_path: Some(l.key_path), init_error: None }
            },
            Err(e) => AppConfig { oss: Vec::new(), db_path: None, key_path: None, init_error: Some(e) },
        }
    }

    /// The database and key paths, or the error that every operation answers with.
    pub fn ensure_ready(&self) -> (r: Result<(&String, &String), ConfigError>)
        ensures
            match self.readiness_error() {
                Some(e) => r == Err::<(&String, &String), ConfigError>(e),
                None => r matches Ok((db, key)) && self.spec_db_path() == Some(*db)
                    && self.spec_key_path() == Some(*key),
            },
    {
        if let Some(e) = &self.init_error {
            return Err(ConfigError::Init(e.clone()));
        }
        let db_path = match &self.db_path {
            Some(p) => p,
            None => return Err(ConfigError::DatabaseNotInitialized),
        };
        let key_path = match &self.key_path {
            Some(p) => p,
            None => return Err(ConfigError::KeyNotInitialized),
        };
        Ok((db_path, key_path))
    }

    /// The first stored connection with the id `id`.
    pub fn get(&self, id: &str) -> (r: Result<&OssConfig, ConfigError>)
        ensures
            match self.readiness_error() {
                Some(e) => r == Err::<&OssConfig, ConfigError>(e),
                None => match first_with_id(self.entries(), id@) {
                    Some(i) => r == Ok::<&OssConfig, ConfigError>(&self.entries()[i]),
                    None => r == Err::<&OssConfig, ConfigError>(ConfigError::NotFound),
                },
            },
    {
        self.ensure_ready()?;
        let mut i: usize = 0;
        while i < self.oss.len()
            invariant
                i <= self.oss@.len(),
                self.readiness_error() is None,
                forall|k: int| 0 <= k < i ==> (#[trigger] self.oss@[k]).id@ != id@,
            decreases self.oss@.len() - i,
        {
            if same_text(self.oss[i].id.as_str(), id) {
                proof {
                    lemma_first_with_id_at(self.oss@, id@, i as int);
                }
                return Ok(&self.oss[i]);
            }
            i = i + 1;
        }
        proof {
            lemma_first_with_id_at(self.oss@, id@, i as int);
        }
        Err(ConfigError::NotFound)
    }

    /// All stored connections, in listing order.
    pub fn list(&self) -> (r: Result<Vec<OssConfig>, ConfigError>)
        ensures
            match self.readiness_error() {
                Some(e) => r matches Err(f) && f == e,
                None => r matches Ok(v) && v@ == self.entries(),
            },
            sorted_configs(self.entries()),
    {
        proof {
            use_type_invariant(self);
        }
        self.ensure_ready()?;
        let mut v: Vec<OssConfig> = Vec::new();
        let mut i: usize = 0;
        while i < self.oss.len()
            invariant
                i <= self.oss@.len(),
                v@ == self.oss@.take(i as int),
            decreases self.oss@.len() - i,
        {
            v.push(self.oss[i].copy());
            i = i + 1;
            assert(v@ =~= self.oss@.take(i as int));
        }
        assert(self.oss@.take(self.oss@.len() as int) =~= self.oss@);
        Ok(v)
    }

    /// The largest `sort` stored, or 0 for none.
    pub fn max_sort(&self) -> (m: i64)
        ensures
            m == max_sort(self.entries()),
    {
        let mut m: i64 = 0;
        let mut i: usize = 0;
        while i < self.oss.len()
            invariant
                i <= self.oss@.len(),
                m == max_sort(self.oss@.take(i as int)),
            decreases self.oss@.len() - i,
        {
            proof {
                assert(self.oss@.take(i + 1).drop_last() =~= self.oss@.take(i as int));
            }
            if i == 0 || self.oss[i].sort > m {
                m = self.oss[i].sort;
            }
            i = i + 1;
        }
        assert(self.oss@.take(self.oss@.len() as int) =~= self.oss@);
        m
    }

    /// `config` with the `sort` under which it is stored: its own where positive,
    /// else 1000 past the largest stored.
    pub fn placed(&self, config: OssConfig) -> (c: OssConfig)
        requires
            config.sort > 0 || max_sort(self.entries()) <= i64::MAX - 1000,
        ensures
            c == placed(self.entries(), config),
    {
        if config.sort > 0 {
            config
        } else {
            let next = self.max_sort() + 1000;
            OssConfig { sort: next, ..config }
        }
    }

    /// Stores `config`, replacing any stored connection with its id; a `sort` that
    /// is not positive places it after all others.
    pub fn update(&mut self, config: OssConfig) -> (r: Result<(), ConfigError>)
        requires
            config.sort > 0 || max_sort(old(self).entries()) <= i64::MAX - 1000,
        ensures
            sorted_configs(final(self).entries()),
            final(self).spec_init_error() == old(self).spec_init_error(),
            final(self).spec_db_path() == old(self).spec_db_path(),
            final(self).spec_key_path() == old(self).spec_key_path(),
            match old(self).readiness_error() {
                Some(e) => r == Err::<(), ConfigError>(e) && final(self).entries() == old(self).entries(),
                None => r is Ok && final(self).entries() == insert_in_order(
                    without_id(old(self).entries(), config.id@),
                    placed(old(self).entries(), config),
                ),
            },
    {
        proof {
            use_type_invariant(&*self);
        }
        self.ensure_ready()?;
        let stored = self.placed(config);
        let (mut kept, _) = drop_id(&self.oss, stored.id.as_str());
        insert_config_in_order(&mut kept, stored);
        self.oss = kept;
        Ok(())
    }

    /// Removes the stored connections with the id `id`; fails with `NotFound` where
    /// there is none.
    pub fn remove(&mut self, id: &str) -> (r: Result<(), ConfigError>)
        ensures
            sorted_configs(final(self).entries()),
            final(self).spec_init_error() == old(self).spec_init_error(),
            final(self).spec_db_path() == old(self).spec_db_path(),
            final(self).spec_key_path() == old(self).spec_key_path(),
            match old(self).readiness_error() {
                Some(e) => r == Err::<(), ConfigError>(e) && final(self).entries() == old(self).entries(),
                None => if has_id(old(self).entries(), id@) {
                    r is Ok && final(self).entries() == without_id(old(self).entries(), id@)
                } else {
                    r == Err::<(), ConfigError>(ConfigError::NotFound) && final(self).entries() == old(self).entries()
                },
            },
    {
        proof {
            use_type_invariant(&*self);
        }
        self.ensure_ready()?;
        let (kept, dropped) = drop_id(&self.oss, id);
        if !dropped {
            return Err(ConfigError::NotFound);
        }
        self.oss = kept;
        Ok(())
    }

    /// Gives each stored connection named in `ids` the `sort` of its last position
    /// there (`(position + 1) * 1000`), then lists them in the new order.
    pub fn update_sort_order(&mut self, ids: Vec<String>) -> (r: Result<(), ConfigError>)
        requires
            ids@.len() <= 9223372036854775,
        ensures
            sorted_configs(final(self).entries()),
            final(self).spec_init_error() == old(self).spec_init_error(),
            final(self).spec_db_path() == old(self).spec_db_path(),
            final(self).spec_key_path() == old(self).spec_key_path(),
            match old(self).readiness_error() {
                Some(e) => r == Err::<(), ConfigError>(e) && final(self).entries() == old(self).entries(),
                None => r is Ok && final(self).entries() == in_order(
                    old(self).entries().map_values(|c: OssConfig| reordered(c, texts(ids@))),
                ),
            },
    {
        proof {
            use_type_invariant(&*self);
        }
        self.ensure_ready()?;
        let ghost id_texts = texts(ids@);
        let mut moved: Vec<OssConfig> = Vec::new();
        let mut i: usize = 0;
        while i < self.oss.len()
            invariant
                i <= self.oss@.len(),
                ids@.len() <= 9223372036854775,
                id_texts == texts(ids@),
                moved@ == self.oss@.take(i as int).map_values(|c: OssConfig| reordered(c, id_texts)),
            decreases self.oss@.len() - i,
        {
            let c = self.oss[i].copy();
            let mut k: usize = ids.len();
            assert(id_texts.take(k as int) =~= id_texts);
            while k > 0 && !same_text(ids[k - 1].as_str(), c.id.as_str())
                invariant
                    k <= ids@.len(),
                    id_texts == texts(ids@),
                    last_position(id_texts, c.id@) == last_position(id_texts.take(k as int), c.id@),
                decreases k,
            {
                proof {
                    assert(id_texts.take(k as int).drop_last() =~= id_texts.take(k - 1));
                }
                k = k - 1;
            }
            let placed = if k == 0 {
                proof {
                    assert(id_texts.take(0) =~= Seq::<Seq<char>>::empty());
                }
                c
            } else {
                proof {
                    assert(id_texts.take(k as int).last() == ids@[k - 1]@);
                }
                let sort = sort_value_for_position(k - 1);
                OssConfig { sort, ..c }
            };
            moved.push(placed);
            i = i + 1;
            assert(moved@ =~= self.oss@.take(i as int).map_values(|c: OssConfig| reordered(c, id_texts)));
        }
        proof {
            assert(self.oss@.take(self.oss@.len() as int) =~= self.oss@);
            assert(id_texts.take(id_texts.len() as int) =~= id_texts);
        }
        self.oss = order_configs(&moved);
        Ok(())
    }
}

proof fn lemma_without_id(s: Seq<OssConfig>, id: Seq<char>)
    ensures
        forall|k: int| 0 <= k < without_id(s, id).len() ==> (#[trigger] without_id(s, id)[k]).id@ != id,
        forall|x: OssConfig| #[trigger] without_id(s, id).contains(x) <==> (s.contains(x) && x.id@ != id),
    decreases s.len(),
{
    if s.len() > 0 {
        let t = s.drop_last();
        lemma_without_id(t, id);
        let rest = without_id(t, id);
        let r = without_id(s, id);
        assert forall|x: OssConfig| #[trigger] r.contains(x) implies (s.contains(x) && x.id@ != id) by {
            let w = choose|w: int| 0 <= w < r.len() && r[w] == x;
            if s.last().id@ != id && w == rest.len() {
                assert(s[s.len() - 1] == x);
            } else {
                assert(rest[w] == x);
                assert(rest.contains(x));
                let v = choose|v: int| 0 <= v < t.len() && t[v] == x;
                assert(s[v] == t[v]);
            }
        }
        assert forall|x: OssConfig| s.contains(x) && x.id@ != id implies #[trigger] r.contains(x) by {
            let w = choose|w: int| 0 <= w < s.len() && s[w] == x;
            if w < s.len() - 1 {
                assert(t[w] == x);
                assert(t.contains(x));
                assert(rest.contains(x));
                let v = choose|v: int| 0 <= v < rest.len() && rest[v] == x;
                assert(r[v] == x);
            } else {
                assert(r[r.len() - 1] == x);
            }
        }
    }
}

proof fn lemma_insert_in_order_contains(s: Seq<OssConfig>, x: OssConfig)
    ensures
        forall|y: OssConfig| #[trigger] insert_in_order(s, x).contains(y) <==> (s.contains(y) || y == x),
{
    lemma_insertion_point_props(s, x);
    let k = insertion_point(s, x) as int;
    let r = insert_in_order(s, x);
    assert forall|y: OssConfig| #[trigger] r.contains(y) <==> (s.contains(y) || y == x) by {
        if s.contains(y) {
            let w = choose|w: int| 0 <= w < s.len() && s[w] == y;
            if w < k {
                assert(r[w] == y);
            } else {
                assert(r[w + 1] == y);
            }
        }
        if y == x {
            assert(r[k] == x);
        }
        if r.contains(y) {
            let w = choose|w: int| 0 <= w < r.len() && r[w] == y;
            if w < k {
                assert(s[w] == y);
            } else if w > k {
                assert(s[w - 1] == y);
            }
        }
    }
}

proof fn lemma_in_order_contains(s: Seq<OssConfig>)
    ensures
        forall|y: OssConfig| #[trigger] in_order(s).contains(y) <==> s.contains(y),
    decreases s.len(),
{
    if s.len() > 0 {
        let t = s.drop_last();
        lemma_in_order_contains(t);
        lemma_insert_in_order_contains(in_order(t), s.last());
        assert forall|y: OssConfig| #[trigger] in_order(s).contains(y) <==> s.contains(y) by {
            if s.contains(y) && y != s.last() {
                let w = choose|w: int| 0 <= w < s.len() && s[w] == y;
                assert(t[w] == y);
            }
            if t.contains(y) {
                let w = choose|w: int| 0 <= w < t.len() && t[w] == y;
                assert(s[w] == y);
            }
            if y == s.last() {
                assert(s[s.len() - 1] == y);
            }
        }
    }
}

/// Read after write: once `update(config)` has stored `config`, `get` with its id
/// finds exactly the stored connection (with the `sort` it was placed under).
pub proof fn lemma_get_after_update(s: Seq<OssConfig>, config: OssConfig)
    ensures
        ({
            let listed = insert_in_order(without_id(s, config.id@), placed(s, config));
            first_with_id(listed, config.id@) matches Some(i) && listed[i] == placed(s, config)
        }),
{
    let kept = without_id(s, config.id@);
    let x = placed(s, config);
    lemma_without_id(s, config.id@);
    lemma_insertion_point_props(kept, x);
    let k = insertion_point(kept, x) as int;
    let listed = insert_in_order(kept, x);
    assert forall|i: int| 0 <= i < k implies (#[trigger] listed[i]).id@ != config.id@ by {
        assert(listed[i] == kept[i]);
    }
    lemma_first_with_id_at(listed, config.id@, k);
}

/// After `remove(id)`, `get(id)` finds nothing.
pub proof fn lemma_get_after_remove(s: Seq<OssConfig>, id: Seq<char>)
    ensures
        first_with_id(without_id(s, id), id) is None,
{
    lemma_without_id(s, id);
    let t = without_id(s, id);
    lemma_first_with_id_at(t, id, t.len() as int);
}

/// Storing a connection leaves every connection with another id in the list.
pub proof fn lemma_update_keeps_others(s: Seq<OssConfig>, config: OssConfig, other: OssConfig)
    requires
        s.contains(other),
        other.id@ != config.id@,
    ensures
        insert_in_order(without_id(s, config.id@), placed(s, config)).contains(other),
{
    lemma_without_id(s, config.id@);
    lemma_insert_in_order_contains(without_id(s, config.id@), placed(s, config));
}

/// Removing an id leaves every connection with another id in the list.
pub proof fn lemma_remove_keeps_others(s: Seq<OssConfig>, id: Seq<char>, other: OssConfig)
    requires
        s.contains(other),
        other.id@ != id,
    ensures
        without_id(s, id).contains(other),
{
    lemma_without_id(s, id);
}

/// Reordering lists the connections named in `ids` (each named once) in the order
/// in which they are named.
pub proof fn lemma_reorder_follows_ids(s: Seq<OssConfig>, ids: Seq<Seq<char>>, i: int, j: int, p: int, q: int)
    requires
        ids.no_duplicates(),
        ids.len() <= 9223372036854775,
        0 <= i < j < ids.len(),
        0 <= p < s.len(),
        0 <= q < s.len(),
        in_order(s.map_values(|c: OssConfig| reordered(c, ids)))[p].id@ == ids[i],
        in_order(s.map_values(|c: OssConfig| reordered(c, ids)))[q].id@ == ids[j],
    ensures
        p < q,
{
    let m = s.map_values(|c: OssConfig| reordered(c, ids));
    let r = in_order(m);
    lemma_in_order_sorted(m);
    lemma_in_order_contains(m);
    assert(r.contains(r[p]));
    assert(r.contains(r[q]));
    let wp = choose|w: int| 0 <= w < m.len() && m[w] == r[p];
    let wq = choose|w: int| 0 <= w < m.len() && m[w] == r[q];
    lemma_last_position_unique(ids, i);
    lemma_last_position_unique(ids, j);
    assert(m[wp] == reordered(s[wp], ids));
    assert(m[wq] == reordered(s[wq], ids));
    assert(r[p].sort == (i + 1) * 1000);
    assert(r[q].sort == (j + 1) * 1000);
    if q <= p {
        if q < p {
            assert(config_le(r[q], r[p]));
        }
    }
}

proof fn lemma_last_position_unique(ids: Seq<Seq<char>>, i: int)
    requires
        ids.no_duplicates(),
        0 <= i < ids.len(),
    ensures
        last_position(ids, ids[i]) == Some(i),
    decreases ids.len(),
{
    if i < ids.len() - 1 {
        lemma_last_position_unique(ids.drop_last(), i);
    }
}

/// One row of the configuration table: a connection with its secret sealed.
#[derive(Debug, Clone)]
pub struct StoredConfigRow {
    pub id: String,
    pub name: String,
    pub provider: String,
    pub access_key: String,
    pub secret_key_encrypted: String,
    pub endpoint: String,
    pub region: String,
    pub bucket: String,
    pub path_style: String,
    pub sort: i64,
}

/// Whether `c` and `row` agree on every column but the secret.
pub open spec fn same_columns(c: OssConfig, row: StoredConfigRow) -> bool {
    &&& c.id == row.id
    &&& c.name == row.name
    &&& c.provider == row.provider
    &&& c.access_key == row.access_key
    &&& c.endpoint == row.endpoint
    &&& c.region == row.region
    &&& c.bucket == row.bucket
    &&& c.path_style == row.path_style
    &&& c.sort == row.sort
}

/// The connection that a stored row holds, its secret opened under the local key.
pub fn config_from_row(key: &[u8], row: StoredConfigRow) -> (r: Result<OssConfig, SecretError>)
    requires
        key@.len() == 32,
    ensures
        match (r, opened_secret(key@, row.secret_key_encrypted@)) {
            (Ok(c), Ok(secret)) => same_columns(c, row) && c.secret_key@ == secret,
            (Err(e), Err(fault)) => e.fault() == fault,
            _ => false,
        },
        forall|nonce: Seq<u8>, secret: Seq<char>|
            #[trigger] sealed_by(key@, row.secret_key_encrypted@, nonce, secret) ==> (r matches Ok(c) && c.secret_key@
                == secret),
{
    let secret_key = decrypt_secret(key, row.secret_key_encrypted.as_str())?;
    Ok(OssConfig {
        id: row.id,
        name: row.name,
        provider: row.provider,
        access_key: row.access_key,
        secret_key,
        endpoint: row.endpoint,
        region: row.region,
        bucket: row.bucket,
        path_style: row.path_style,
        sort: row.sort,
    })
}

/// A field-by-field copy of a stored row.
fn copy_row(row: &StoredConfigRow) -> (c: StoredConfigRow)
    ensures
        c == *row,
{
    StoredConfigRow {
        id: row.id.clone(),
        name: row.name.clone(),
        provider: row.provider.clone(),
        access_key: row.access_key.clone(),
        secret_key_encrypted: row.secret_key_encrypted.clone(),
        endpoint: row.endpoint.clone(),
        region: row.region.clone(),
        bucket: row.bucket.clone(),
        path_style: row.path_style.clone(),
        sort: row.sort,
    }
}

/// Whether `c` is the connection that the row `row` holds under `key`.
pub open spec fn opened_row(key: Seq<u8>, row: StoredConfigRow, c: OssConfig) -> bool {
    opened_secret(key, row.secret_key_encrypted@) matches Ok(secret) && same_columns(c, row) && c.secret_key@ == secret
}

/// The connections that the stored rows hold, in order, their secrets opened under
/// the local key. The first row whose secret does not open stops the loading, with
/// its error.
pub fn configs_from_rows(key: &[u8], rows: &[StoredConfigRow]) -> (r: Result<Vec<OssConfig>, SecretError>)
    requires
        key@.len() == 32,
    ensures
        match r {
            Ok(v) => v@.len() == rows@.len() && forall|i: int| 0 <= i < rows@.len() ==> opened_row(key@, #[trigger] rows@[i], v@[i]),
            Err(e) => exists|k: int| {
                &&& 0 <= k < rows@.len()
                &&& forall|i: int| 0 <= i < k ==> (opened_secret(key@, (#[trigger] rows@[i]).secret_key_encrypted@) is Ok)
                &&& opened_secret(key@, (#[trigger] rows@[k]).secret_key_encrypted@) matches Err(f) && e.fault() == f
            },
        },
        (forall|i: int| 0 <= i < rows@.len() ==> (opened_secret(key@, (#[trigger] rows@[i]).secret_key_encrypted@) is Ok)) ==> r is Ok,
{
    let mut configs: Vec<OssConfig> = Vec::new();
    let mut i: usize = 0;
    while i < rows.len()
        invariant
            key@.len() == 32,
            i <= rows@.len(),
            configs@.len() == i,
            forall|j: int| 0 <= j < i ==> opened_row(key@, #[trigger] rows@[j], configs@[j]),
        decreases rows@.len() - i,
    {
        match config_from_row(key, copy_row(&rows[i])) {
            Ok(c) => {
                configs.push(c);
            },
            Err(e) => {
                assert forall|j: int| 0 <= j < i implies (opened_secret(key@, (#[trigger] rows@[j]).secret_key_encrypted@) is Ok) by {
                    assert(opened_row(key@, rows@[j], configs@[j]));
                }
                return Err(e);
            },
        }
        i = i + 1;
    }
    Ok(configs)
}

/// The row stored for `config`: its columns, with its secret sealed under the local
/// key with `nonce`.
pub fn row_for_config(key: &[u8], nonce: &[u8], config: &OssConfig) -> (r: Result<StoredConfigRow, SecretError>)
    requires
        key@.len() == 32,
        nonce@.len() == 12,
        encode_utf8(config.secret_key@).len() > aes_gcm_max_plaintext() || base64_length_fits(
            (encode_utf8(config.secret_key@).len() + 16) as nat,
        ),
    ensures
        encode_utf8(config.secret_key@).len() <= aes_gcm_max_plaintext() <==> r is Ok,
        r matches Err(e) ==> e.fault() == SecretFault::EncryptFailed,
        r matches Ok(row) ==> same_columns(*config, row) && sealed_by(
            key@,
            row.secret_key_encrypted@,
            nonce@,
            config.secret_key@,
        ),
{
    let secret_key_encrypted = encrypt_secret(key, nonce, config.secret_key.as_str())?;
    Ok(StoredConfigRow {
        id: config.id.clone(),
        name: config.name.clone(),
        provider: config.provider.clone(),
        access_key: config.access_key.clone(),
        secret_key_encrypted,
        endpoint: config.endpoint.clone(),
        region: config.region.clone(),
        bucket: config.bucket.clone(),
        path_style: config.path_style.clone(),
        sort: config.sort,
    })
}

/// Whether the table's positions must be filled in: more than one row, all at 0.
pub fn needs_sort_backfill(total: i64, zero_sorted: i64) -> (b: bool)
    ensures
        b == (total > 1 && zero_sorted == total),
{
    total > 1 && zero_sorted == total
}

} // verus!

verus! {

proof fn lemma_max_sort_bounds(s: Seq<OssConfig>)
    ensures
        forall|i: int| 0 <= i < s.len() ==> (#[trigger] s[i]).sort <= max_sort(s),
    decreases s.len(),
{
    if s.len() > 1 {
        lemma_max_sort_bounds(s.drop_last());
        assert forall|i: int| 0 <= i < s.len() implies (#[trigger] s[i]).sort <= max_sort(s) by {
            if i < s.len() - 1 {
                assert(s[i] == s.drop_last()[i]);
            }
        }
    }
}

/// A connection saved without a position (`sort` not positive) is placed after every
/// stored one, with a `sort` 1000 past the largest stored; one saved with a position
/// keeps it; either way every other field is kept. Listed, the new connection comes
/// last.
pub proof fn lemma_new_connection_goes_last(s: Seq<OssConfig>, config: OssConfig)
    requires
        config.sort <= 0,
        max_sort(s) + 1000 <= i64::MAX,
    ensures
        forall|i: int| 0 <= i < s.len() ==> placed(s, config).sort > (#[trigger] s[i]).sort,
        placed(s, config).id == config.id && placed(s, config).name == config.name
            && placed(s, config).secret_key == config.secret_key,
        ({
            let listed = insert_in_order(without_id(s, config.id@), placed(s, config));
            listed.len() > 0 && listed.last() == placed(s, config)
        }),
{
    lemma_max_sort_bounds(s);
    let x = placed(s, config);
    let kept = without_id(s, config.id@);
    assert(max_sort(s) >= i64::MIN) by {
        lemma_max_sort_is_a_sort(s);
    }
    lemma_without_id(s, config.id@);
    assert forall|i: int| 0 <= i < kept.len() implies config_le(#[trigger] kept[i], x) by {
        assert(kept.contains(kept[i]));
        let w = choose|w: int| 0 <= w < s.len() && s[w] == kept[i];
        assert(s[w].sort < x.sort);
    }
    lemma_insertion_point_at(kept, x, kept.len() as int);
    let listed = insert_in_order(kept, x);
    assert(listed[kept.len() as int] == x);
}

proof fn lemma_max_sort_is_a_sort(s: Seq<OssConfig>)
    ensures
        i64::MIN <= max_sort(s) <= i64::MAX,
    decreases s.len(),
{
    if s.len() > 1 {
        lemma_max_sort_is_a_sort(s.drop_last());
    }
}

} // verus!
