//! Settings: the local database and the optional remote mirror.

use vstd::prelude::*;

verus! {

/// Where the local database lives.
#[derive(Debug, Clone)]
pub struct DBConfig {
    pub db_type: String,
    pub url: Option<String>,
    pub filepath: Option<String>,
}

/// The remote mirror's endpoint and key, and whether mirroring is on.
#[derive(Debug, Clone)]
pub struct SupabaseConfig {
    pub enabled: bool,
    pub url: Option<String>,
    pub api_key: Option<String>,
}

/// All settings.
#[derive(Debug, Clone)]
pub struct Config {
    pub database: DBConfig,
    pub supabase: SupabaseConfig,
}

impl Config {
    /// Settings with nothing configured: mirroring off, no endpoint, key or database path.
    pub open spec fn is_empty(self) -> bool {
        &&& self.database.db_type@ == Seq::<char>::empty()
        &&& self.database.url is None
        &&& self.database.filepath is None
        &&& self.supabase == (SupabaseConfig { enabled: false, url: None, api_key: None })
    }

    /// Mirroring is on and both its endpoint and its key are known.
    pub open spec fn mirrors(self) -> bool {
        self.supabase.enabled && self.supabase.url is Some && self.supabase.api_key is Some
    }

    pub fn has_supabase_config(&self) -> (r: bool)
        ensures
            r == self.mirrors(),
    {
        self.supabase.enabled && self.supabase.url.is_some() && self.supabase.api_key.is_some()
    }

    /// Applies the mirror's endpoint and key given by the environment: each one given replaces
    /// the configured one and turns mirroring on.
    pub fn apply_env_overrides(&mut self, url: Option<String>, api_key: Option<String>)
        ensures
            final(self).database == old(self).database,
            final(self).supabase.url == (if url is Some { url } else { old(self).supabase.url }),
            final(self).supabase.api_key == (if api_key is Some {
                api_key
            } else {
                old(self).supabase.api_key
            }),
            final(self).supabase.enabled == (old(self).supabase.enabled || url is Some || api_key is Some),
    {
        if url.is_some() {
            self.supabase.url = url;
            self.supabase.enabled = true;
        }
        if api_key.is_some() {
            self.supabase.api_key = api_key;
            self.supabase.enabled = true;
        }
    }
}

impl Default for Config {
    fn default() -> (r: Config)
        ensures
            r.is_empty(),
    {
        Config {
            database: DBConfig { db_type: String::new(), url: None, filepath: None },
            supabase: SupabaseConfig { enabled: false, url: None, api_key: None },
        }
    }
}

} // verus!
