use vstd::prelude::*;

verus! {

/// Why a scrape failed; terminal for the current scrape and cached until
/// the cache expires. Each network-facing variant carries the collaborator's
/// message.
#[derive(Debug)]
pub enum ProcessMetricsError {
    ParseUrl(String),
    Fetch(String),
    Json(String),
    Join(String),
    IO(String),
    Timeout(String),
    CacheNotInitialized,
}

impl ProcessMetricsError {
    /// The HTTP status a handler answers with: gateway timeout for a
    /// timeout, internal error for anything else.
    pub fn status_code(&self) -> (r: u16)
        ensures
            r == self.status_code_spec(),
    {
        match self {
            ProcessMetricsError::Timeout(_) => 504,
            _ => 500,
        }
    }

    pub open spec fn status_code_spec(self) -> u16 {
        match self {
            ProcessMetricsError::Timeout(_) => 504,
            _ => 500,
        }
    }

    /// Whether this is the sentinel of a cache that has never been filled.
    pub fn is_not_initialized(&self) -> (r: bool)
        ensures
            r == (self is CacheNotInitialized),
    {
        match self {
            ProcessMetricsError::CacheNotInitialized => true,
            _ => false,
        }
    }
}

/// The expiry a cache write settles on: the write time plus the time to
/// live, capped at the clock's end.
pub open spec fn next_expiry(now_ms: u64, ttl_ms: u64) -> u64 {
    if now_ms + ttl_ms <= u64::MAX {
        (now_ms + ttl_ms) as u64
    } else {
        u64::MAX
    }
}

/// The cached last scrape: the body produced, or the error met, and the
/// moment the cache expires, against an abstract millisecond clock.
pub struct CachedMetrics {
    pub expiration_time: u64,
    pub expired_at: u64,
    pub buf: Vec<u8>,
    pub err: Option<ProcessMetricsError>,
}

impl CachedMetrics {
    /// A fresh cache: expired at once, holding the not-initialized
    /// sentinel and an empty body.
    pub fn new(cache_expiration: u64, now_ms: u64) -> (r: CachedMetrics)
        ensures
            r.expiration_time == cache_expiration,
            r.expired_at == now_ms,
            r.buf@ == Seq::<u8>::empty(),
            r.err matches Some(e) && e is CacheNotInitialized,
            !r.is_initialized_spec(),
    {
        CachedMetrics {
            expiration_time: cache_expiration,
            expired_at: now_ms,
            buf: Vec::new(),
            err: Some(ProcessMetricsError::CacheNotInitialized),
        }
    }

    /// A successful scrape advances the expiry by the time to live and
    /// clears the error; the body is whatever the scrape wrote into `buf`.
    pub fn set_ok(&mut self, now_ms: u64)
        ensures
            final(self).expired_at == next_expiry(now_ms, old(self).expiration_time),
            final(self).err is None,
            final(self).buf@ == old(self).buf@,
            final(self).expiration_time == old(self).expiration_time,
            final(self).is_initialized_spec(),
    {
        if now_ms <= u64::MAX - self.expiration_time {
            self.expired_at = now_ms + self.expiration_time;
        } else {
            self.expired_at = u64::MAX;
        }
        self.err = None;
    }

    /// A failed scrape advances the expiry the same way and records the
    /// error it met.
    pub fn set_error(&mut self, now_ms: u64, err: ProcessMetricsError)
        ensures
            final(self).expired_at == next_expiry(now_ms, old(self).expiration_time),
            final(self).err matches Some(e) && e == err,
            final(self).buf@ == old(self).buf@,
            final(self).expiration_time == old(self).expiration_time,
    {
        if now_ms <= u64::MAX - self.expiration_time {
            self.expired_at = now_ms + self.expiration_time;
        } else {
            self.expired_at = u64::MAX;
        }
        self.err = Some(err);
    }

    pub open spec fn is_initialized_spec(&self) -> bool {
        !(self.err matches Some(e) && e is CacheNotInitialized)
    }

    /// Whether the cache has ever been filled.
    pub fn is_initialized(&self) -> (r: bool)
        ensures
            r == self.is_initialized_spec(),
    {
        match &self.err {
            Some(e) => !e.is_not_initialized(),
            None => true,
        }
    }

    /// Whether a reader arriving now may be served from the cache without
    /// any work.
    pub fn is_fresh(&self, now_ms: u64) -> (r: bool)
        ensures
            r == (self.is_initialized_spec() && now_ms < self.expired_at),
    {
        self.is_initialized() && now_ms < self.expired_at
    }
}

/// What a reader of the metrics cache does next.
#[derive(Clone, Copy, PartialEq, Eq, Structural, Debug)]
pub enum CacheAction {
    ServeCached,
    ServeStale,
    Refresh,
}

/// The cache discipline of the metrics handler: a fresh cache is served as
/// it stands; on an expired cache the reader refreshes only when the
/// writer side is free, and otherwise serves the stale body rather than
/// queue behind the writer.
pub open spec fn spec_cache_action(fresh: bool, writer_free: bool) -> CacheAction {
    if fresh {
        CacheAction::ServeCached
    } else if writer_free {
        CacheAction::Refresh
    } else {
        CacheAction::ServeStale
    }
}

/// Decides what a reader of the cache does next.
pub fn cache_action(fresh: bool, writer_free: bool) -> (r: CacheAction)
    ensures
        r == spec_cache_action(fresh, writer_free),
{
    if fresh {
        CacheAction::ServeCached
    } else if writer_free {
        CacheAction::Refresh
    } else {
        CacheAction::ServeStale
    }
}

} // verus!
