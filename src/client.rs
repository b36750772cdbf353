use vstd::prelude::*;
use vstd::string::StringExecFns;

verus! {

/// Kind of repository on the model hub.
#[derive(Debug, Clone, Copy, PartialEq, Eq, Structural)]
pub enum RepoType {
    /// Weight files and some configuration files.
    Model,
    /// Data, usually in parquet files.
    Dataset,
    /// A demo of a model or dataset.
    Space,
}

/// The path segment under the hub's root for a kind of repository.
pub open spec fn repo_prefix(ty: RepoType) -> Seq<char> {
    match ty {
        RepoType::Model => "https://huggingface.co/"@,
        RepoType::Dataset => "https://huggingface.co/datasets/"@,
        RepoType::Space => "https://huggingface.co/spaces/"@,
    }
}

/// Builds an `Api` for one repository of the model hub.
pub struct ApiBuilder {
    endpoint: String,
    cached: bool,
}

/// Where files of one repository are fetched from, and whether a cached copy
/// may serve them.
pub struct Api {
    endpoint: String,
    cached: bool,
}

impl ApiBuilder {
    pub closed spec fn endpoint_view(&self) -> Seq<char> {
        self.endpoint@
    }

    pub closed spec fn cached_view(&self) -> bool {
        self.cached
    }

    /// Builds from a hub repository, at its main revision.
    pub fn from_hf(repo_id: &str, ty: RepoType) -> (r: ApiBuilder)
        ensures
            r.cached_view(),
            r.endpoint_view() == repo_prefix(ty) + repo_id@ + "/resolve/main"@,
    {
        ApiBuilder { cached: true, endpoint: Self::endpoint(repo_id, ty) }
    }

    /// The URL under which the files of `repo_id` at its main revision lie.
    pub fn endpoint(repo_id: &str, ty: RepoType) -> (r: String)
        ensures
            r@ == repo_prefix(ty) + repo_id@ + "/resolve/main"@,
    {
        let mut url = match ty {
            RepoType::Model => String::from_str("https://huggingface.co/"),
            RepoType::Dataset => String::from_str("https://huggingface.co/datasets/"),
            RepoType::Space => String::from_str("https://huggingface.co/spaces/"),
        };
        url.append(repo_id);
        url.append("/resolve/main");
        url
    }

    /// Builds from a hub repository at a given revision.
    pub fn from_hf_with_revision(repo_id: String, revision: String) -> (r: ApiBuilder)
        ensures
            r.cached_view(),
            r.endpoint_view() == "https://huggingface.co/"@ + repo_id@ + "/resolve/"@ + revision@,
    {
        let mut url = String::from_str("https://huggingface.co/");
        url.append(repo_id.as_str());
        url.append("/resolve/");
        url.append(revision.as_str());
        ApiBuilder { cached: true, endpoint: url }
    }

    /// Builds from a custom URL.
    pub fn from_custom(endpoint: String) -> (r: ApiBuilder)
        ensures
            r.cached_view(),
            r.endpoint_view() == endpoint@,
    {
        ApiBuilder { cached: true, endpoint }
    }

    /// Turns caching off.
    pub fn uncached(self) -> (r: ApiBuilder)
        ensures
            !r.cached_view(),
            r.endpoint_view() == self.endpoint_view(),
    {
        let mut b = self;
        b.cached = false;
        b
    }

    pub fn build(&self) -> (r: Api)
        ensures
            r.endpoint_view() == self.endpoint_view(),
            r.cached_view() == self.cached_view(),
    {
        Api { endpoint: self.endpoint.clone(), cached: self.cached }
    }
}

impl Api {
    pub closed spec fn endpoint_view(&self) -> Seq<char> {
        self.endpoint@
    }

    pub closed spec fn cached_view(&self) -> bool {
        self.cached
    }

    pub fn endpoint(&self) -> (r: &str)
        ensures
            r@ == self.endpoint_view(),
    {
        self.endpoint.as_str()
    }

    pub fn is_cached(&self) -> (r: bool)
        ensures
            r == self.cached_view(),
    {
        self.cached
    }

    /// The URL of `file_name` in the repository.
    pub fn file_url(&self, file_name: &str) -> (r: String)
        ensures
            r@ == self.endpoint_view() + "/"@ + file_name@,
    {
        let mut url = self.endpoint.clone();
        url.append("/");
        url.append(file_name);
        url
    }

    /// Whether a file must be fetched from the network, given whether the
    /// cache holds a copy; otherwise the cached copy serves it.
    pub fn must_fetch(&self, cache_hit: bool) -> (r: bool)
        ensures
            r == (!cache_hit || !self.cached_view()),
    {
        !cache_hit || !self.cached
    }
}

} // verus!
