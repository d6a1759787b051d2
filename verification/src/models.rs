//! The plain data that the library's functions take and give.
use vstd::prelude::*;
use crate::text::push_str;

verus! {

/// One stored connection: an S3-compatible account, its endpoint and its default
/// bucket. `sort` is its position key in the list; `0` means not yet placed.
#[derive(Debug, Clone)]
pub struct OssConfig {
    pub id: String,
    pub name: String,
    pub provider: String,
    pub access_key: String,
    pub secret_key: String,
    pub endpoint: String,
    pub region: String,
    pub bucket: String,
    pub path_style: String,
    pub sort: i64,
}

impl Default for OssConfig {
    /// Every text field empty but the region, which is `cn-north-1`; `sort` is 0.
    fn default() -> (c: Self)
        ensures
            c.id@ == Seq::<char>::empty(),
            c.name@ == Seq::<char>::empty(),
            c.provider@ == Seq::<char>::empty(),
            c.access_key@ == Seq::<char>::empty(),
            c.secret_key@ == Seq::<char>::empty(),
            c.endpoint@ == Seq::<char>::empty(),
            c.region@ == seq!['c', 'n', '-', 'n', 'o', 'r', 't', 'h', '-', '1'],
            c.bucket@ == Seq::<char>::empty(),
            c.path_style@ == Seq::<char>::empty(),
            c.sort == 0,
    {
        let mut region = String::new();
        push_str(&mut region, "cn-north-1");
        proof {
            reveal_strlit("cn-north-1");
        }
        OssConfig {
            id: String::new(),
            name: String::new(),
            provider: String::new(),
            access_key: String::new(),
            secret_key: String::new(),
            endpoint: String::new(),
            region,
            bucket: String::new(),
            path_style: String::new(),
            sort: 0,
        }
    }
}

impl OssConfig {
    /// A field-by-field copy.
    pub fn copy(&self) -> (c: Self)
        ensures
            c == *self,
    {
        OssConfig {
            id: self.id.clone(),
            name: self.name.clone(),
            provider: self.provider.clone(),
            access_key: self.access_key.clone(),
            secret_key: self.secret_key.clone(),
            endpoint: self.endpoint.clone(),
            region: self.region.clone(),
            bucket: self.bucket.clone(),
            path_style: self.path_style.clone(),
            sort: self.sort,
        }
    }
}

} // verus!
