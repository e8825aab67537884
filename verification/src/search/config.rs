//! What a search looks for and how it orders what it finds.
use crate::score::Score;
pub use crate::search::recipes::edge_hybrid_search_rrf;
use vstd::prelude::*;

verus! {

/// How many results a search yields unless told otherwise.
pub const DEFAULT_SEARCH_LIMIT: usize = 10;

/// The least cosine similarity of a result: the bits of the single-precision number 0.6.
pub const DEFAULT_MIN_SCORE: u32 = 0x3f19_999a;

/// The weight of relevance against diversity: the bits of the double-precision number 0.5.
pub const DEFAULT_MMR_LAMBDA: u64 = 0x3fe0_0000_0000_0000;

/// How far a search walks the graph.
pub const MAX_SEARCH_DEPTH: usize = 3;

/// The configuration of one scope as plain values.
pub struct ScopeView<M, R> {
    pub search_methods: Seq<M>,
    pub reranker: R,
    pub sim_min_score: u32,
    pub mmr_lambda: u64,
    pub bfs_max_depth: usize,
}

/// A scope with the usual limits.
pub open spec fn scope<M, R>(search_methods: Seq<M>, reranker: R, mmr_lambda: u64) -> ScopeView<M, R> {
    ScopeView {
        search_methods,
        reranker,
        sim_min_score: DEFAULT_MIN_SCORE,
        mmr_lambda,
        bfs_max_depth: MAX_SEARCH_DEPTH,
    }
}

/// How facts are searched.
#[derive(Clone, Copy, Debug, PartialEq, Eq, Structural)]
pub enum EdgeSearchMethod {
    /// By the similarity of embeddings.
    CosineSimilarity,
    /// By words.
    Bm25,
    /// By walking the graph.
    BreadthFirstSearch,
}

/// How facts that were found are ordered.
#[derive(Clone, Copy, Debug, PartialEq, Eq, Structural)]
pub enum EdgeReranker {
    /// By reciprocal ranks.
    Rrf,
    /// By relevance and diversity.
    Mmr,
    /// By nearness to a node.
    NodeDistance,
    /// By the number of episodes that mention them.
    EpisodeMentions,
    /// By a model that scores passages.
    CrossEncoder,
}

/// The search for facts.
#[derive(Debug)]
pub struct EdgeSearchConfig {
    pub search_methods: Vec<EdgeSearchMethod>,
    pub reranker: EdgeReranker,
    /// The least cosine similarity of a result, as the bits of a single-precision number.
    pub sim_min_score: u32,
    /// The weight of relevance against diversity, as the bits of a double-precision number.
    pub mmr_lambda: u64,
    pub bfs_max_depth: usize,
}

impl View for EdgeSearchConfig {
    type V = ScopeView<EdgeSearchMethod, EdgeReranker>;

    open spec fn view(&self) -> ScopeView<EdgeSearchMethod, EdgeReranker> {
        ScopeView {
            search_methods: self.search_methods@,
            reranker: self.reranker,
            sim_min_score: self.sim_min_score,
            mmr_lambda: self.mmr_lambda,
            bfs_max_depth: self.bfs_max_depth,
        }
    }
}

impl Clone for EdgeSearchConfig {
    fn clone(&self) -> (r: EdgeSearchConfig)
        ensures
            r@ == self@,
    {
        let search_methods = self.search_methods.clone();
        assert(search_methods@ =~= self.search_methods@);
        EdgeSearchConfig {
            search_methods,
            reranker: self.reranker,
            sim_min_score: self.sim_min_score,
            mmr_lambda: self.mmr_lambda,
            bfs_max_depth: self.bfs_max_depth,
        }
    }
}

impl EdgeSearchConfig {
    /// A search with the usual limits.
    pub fn with(
        search_methods: Vec<EdgeSearchMethod>,
        reranker: EdgeReranker,
    ) -> (r: EdgeSearchConfig)
        ensures
            r@ == scope(search_methods@, reranker, DEFAULT_MMR_LAMBDA),
    {
        EdgeSearchConfig {
            search_methods,
            reranker,
            sim_min_score: DEFAULT_MIN_SCORE,
            mmr_lambda: DEFAULT_MMR_LAMBDA,
            bfs_max_depth: MAX_SEARCH_DEPTH,
        }
    }

    /// The search with another weight of relevance against diversity.
    pub fn weighing(self, mmr_lambda: u64) -> (r: EdgeSearchConfig)
        ensures
            r@ == (ScopeView { mmr_lambda, ..self@ }),
    {
        let mut config = self;
        config.mmr_lambda = mmr_lambda;
        config
    }

    /// The usual methods.
    pub open spec fn usual_methods() -> Seq<EdgeSearchMethod> {
        seq![EdgeSearchMethod::Bm25, EdgeSearchMethod::CosineSimilarity]
    }

    /// The usual methods.
    pub fn hybrid() -> (r: Vec<EdgeSearchMethod>)
        ensures
            r@ == EdgeSearchConfig::usual_methods(),
    {
        let mut methods: Vec<EdgeSearchMethod> = Vec::new();
        methods.push(EdgeSearchMethod::Bm25);
        methods.push(EdgeSearchMethod::CosineSimilarity);
        assert(methods@ =~= EdgeSearchConfig::usual_methods());
        methods
    }

    /// The usual methods and a walk of the graph.
    pub fn hybrid_and_walk() -> (r: Vec<EdgeSearchMethod>)
        ensures
            r@ == EdgeSearchConfig::usual_methods().push(EdgeSearchMethod::BreadthFirstSearch),
    {
        let mut methods = EdgeSearchConfig::hybrid();
        methods.push(EdgeSearchMethod::BreadthFirstSearch);
        methods
    }

    /// Tells whether a method is used.
    pub fn uses(&self, method: EdgeSearchMethod) -> (r: bool)
        ensures
            r == self@.search_methods.contains(method),
    {
        let mut i: usize = 0;
        while i < self.search_methods.len()
            invariant
                i <= self.search_methods@.len(),
                forall|j: int| 0 <= j < i ==> self.search_methods@[j] != method,
            decreases self.search_methods.len() - i,
        {
            if self.search_methods[i] == method {
                assert(self.search_methods@[i as int] == method);
                return true;
            }
            i += 1;
        }
        false
    }
}

impl Default for EdgeSearchConfig {
    /// The usual methods, ordered by reciprocal ranks.
    fn default() -> (r: EdgeSearchConfig)
        ensures
            r@ == scope(
                EdgeSearchConfig::usual_methods(),
                EdgeReranker::Rrf,
                DEFAULT_MMR_LAMBDA,
            ),
    {
        EdgeSearchConfig::with(EdgeSearchConfig::hybrid(), EdgeReranker::Rrf)
    }
}

/// How entities are searched.
#[derive(Clone, Copy, Debug, PartialEq, Eq, Structural)]
pub enum NodeSearchMethod {
    /// By the similarity of embeddings.
    CosineSimilarity,
    /// By words.
    Bm25,
    /// By walking the graph.
    BreadthFirstSearch,
}

/// How entities that were found are ordered.
#[derive(Clone, Copy, Debug, PartialEq, Eq, Structural)]
pub enum NodeReranker {
    /// By reciprocal ranks.
    Rrf,
    /// By relevance and diversity.
    Mmr,
    /// By nearness to a node.
    NodeDistance,
    /// By the number of episodes that mention them.
    EpisodeMentions,
    /// By a model that scores passages.
    CrossEncoder,
}

/// The search for entities.
#[derive(Debug)]
pub struct NodeSearchConfig {
    pub search_methods: Vec<NodeSearchMethod>,
    pub reranker: NodeReranker,
    /// The least cosine similarity of a result, as the bits of a single-precision number.
    pub sim_min_score: u32,
    /// The weight of relevance against diversity, as the bits of a double-precision number.
    pub mmr_lambda: u64,
    pub bfs_max_depth: usize,
}

impl View for NodeSearchConfig {
    type V = ScopeView<NodeSearchMethod, NodeReranker>;

    open spec fn view(&self) -> ScopeView<NodeSearchMethod, NodeReranker> {
        ScopeView {
            search_methods: self.search_methods@,
            reranker: self.reranker,
            sim_min_score: self.sim_min_score,
            mmr_lambda: self.mmr_lambda,
            bfs_max_depth: self.bfs_max_depth,
        }
    }
}

impl Clone for NodeSearchConfig {
    fn clone(&self) -> (r: NodeSearchConfig)
        ensures
            r@ == self@,
    {
        let search_methods = self.search_methods.clone();
        assert(search_methods@ =~= self.search_methods@);
        NodeSearchConfig {
            search_methods,
            reranker: self.reranker,
            sim_min_score: self.sim_min_score,
            mmr_lambda: self.mmr_lambda,
            bfs_max_depth: self.bfs_max_depth,
        }
    }
}

impl NodeSearchConfig {
    /// A search with the usual limits.
    pub fn with(
        search_methods: Vec<NodeSearchMethod>,
        reranker: NodeReranker,
    ) -> (r: NodeSearchConfig)
        ensures
            r@ == scope(search_methods@, reranker, DEFAULT_MMR_LAMBDA),
    {
        NodeSearchConfig {
            search_methods,
            reranker,
            sim_min_score: DEFAULT_MIN_SCORE,
            mmr_lambda: DEFAULT_MMR_LAMBDA,
            bfs_max_depth: MAX_SEARCH_DEPTH,
        }
    }

    /// The search with another weight of relevance against diversity.
    pub fn weighing(self, mmr_lambda: u64) -> (r: NodeSearchConfig)
        ensures
            r@ == (ScopeView { mmr_lambda, ..self@ }),
    {
        let mut config = self;
        config.mmr_lambda = mmr_lambda;
        config
    }

    /// The usual methods.
    pub open spec fn usual_methods() -> Seq<NodeSearchMethod> {
        seq![NodeSearchMethod::Bm25, NodeSearchMethod::CosineSimilarity]
    }

    /// The usual methods.
    pub fn hybrid() -> (r: Vec<NodeSearchMethod>)
        ensures
            r@ == NodeSearchConfig::usual_methods(),
    {
        let mut methods: Vec<NodeSearchMethod> = Vec::new();
        methods.push(NodeSearchMethod::Bm25);
        methods.push(NodeSearchMethod::CosineSimilarity);
        assert(methods@ =~= NodeSearchConfig::usual_methods());
        methods
    }

    /// The usual methods and a walk of the graph.
    pub fn hybrid_and_walk() -> (r: Vec<NodeSearchMethod>)
        ensures
            r@ == NodeSearchConfig::usual_methods().push(NodeSearchMethod::BreadthFirstSearch),
    {
        let mut methods = NodeSearchConfig::hybrid();
        methods.push(NodeSearchMethod::BreadthFirstSearch);
        methods
    }

    /// Tells whether a method is used.
    pub fn uses(&self, method: NodeSearchMethod) -> (r: bool)
        ensures
            r == self@.search_methods.contains(method),
    {
        let mut i: usize = 0;
        while i < self.search_methods.len()
            invariant
                i <= self.search_methods@.len(),
                forall|j: int| 0 <= j < i ==> self.search_methods@[j] != method,
            decreases self.search_methods.len() - i,
        {
            if self.search_methods[i] == method {
                assert(self.search_methods@[i as int] == method);
                return true;
            }
            i += 1;
        }
        false
    }
}

impl Default for NodeSearchConfig {
    /// The usual methods, ordered by reciprocal ranks.
    fn default() -> (r: NodeSearchConfig)
        ensures
            r@ == scope(
                NodeSearchConfig::usual_methods(),
                NodeReranker::Rrf,
                DEFAULT_MMR_LAMBDA,
            ),
    {
        NodeSearchConfig::with(NodeSearchConfig::hybrid(), NodeReranker::Rrf)
    }
}

/// How episodes are searched.
#[derive(Clone, Copy, Debug, PartialEq, Eq, Structural)]
pub enum EpisodeSearchMethod {
    /// By words.
    Bm25,
}

/// How episodes that were found are ordered.
#[derive(Clone, Copy, Debug, PartialEq, Eq, Structural)]
pub enum EpisodeReranker {
    /// By reciprocal ranks.
    Rrf,
    /// By a model that scores passages.
    CrossEncoder,
}

/// The search for episodes.
#[derive(Debug)]
pub struct EpisodeSearchConfig {
    pub search_methods: Vec<EpisodeSearchMethod>,
    pub reranker: EpisodeReranker,
    /// The least cosine similarity of a result, as the bits of a single-precision number.
    pub sim_min_score: u32,
    /// The weight of relevance against diversity, as the bits of a double-precision number.
    pub mmr_lambda: u64,
    pub bfs_max_depth: usize,
}

impl View for EpisodeSearchConfig {
    type V = ScopeView<EpisodeSearchMethod, EpisodeReranker>;

    open spec fn view(&self) -> ScopeView<EpisodeSearchMethod, EpisodeReranker> {
        ScopeView {
            search_methods: self.search_methods@,
            reranker: self.reranker,
            sim_min_score: self.sim_min_score,
            mmr_lambda: self.mmr_lambda,
            bfs_max_depth: self.bfs_max_depth,
        }
    }
}

impl Clone for EpisodeSearchConfig {
    fn clone(&self) -> (r: EpisodeSearchConfig)
        ensures
            r@ == self@,
    {
        let search_methods = self.search_methods.clone();
        assert(search_methods@ =~= self.search_methods@);
        EpisodeSearchConfig {
            search_methods,
            reranker: self.reranker,
            sim_min_score: self.sim_min_score,
            mmr_lambda: self.mmr_lambda,
            bfs_max_depth: self.bfs_max_depth,
        }
    }
}

impl EpisodeSearchConfig {
    /// A search with the usual limits.
    pub fn with(
        search_methods: Vec<EpisodeSearchMethod>,
        reranker: EpisodeReranker,
    ) -> (r: EpisodeSearchConfig)
        ensures
            r@ == scope(search_methods@, reranker, DEFAULT_MMR_LAMBDA),
    {
        EpisodeSearchConfig {
            search_methods,
            reranker,
            sim_min_score: DEFAULT_MIN_SCORE,
            mmr_lambda: DEFAULT_MMR_LAMBDA,
            bfs_max_depth: MAX_SEARCH_DEPTH,
        }
    }

    /// The usual methods.
    pub open spec fn usual_methods() -> Seq<EpisodeSearchMethod> {
        seq![EpisodeSearchMethod::Bm25]
    }

    /// The usual methods.
    pub fn hybrid() -> (r: Vec<EpisodeSearchMethod>)
        ensures
            r@ == EpisodeSearchConfig::usual_methods(),
    {
        let mut methods: Vec<EpisodeSearchMethod> = Vec::new();
        methods.push(EpisodeSearchMethod::Bm25);
        assert(methods@ =~= EpisodeSearchConfig::usual_methods());
        methods
    }

    /// Tells whether a method is used.
    pub fn uses(&self, method: EpisodeSearchMethod) -> (r: bool)
        ensures
            r == self@.search_methods.contains(method),
    {
        let mut i: usize = 0;
        while i < self.search_methods.len()
            invariant
                i <= self.search_methods@.len(),
                forall|j: int| 0 <= j < i ==> self.search_methods@[j] != method,
            decreases self.search_methods.len() - i,
        {
            if self.search_methods[i] == method {
                assert(self.search_methods@[i as int] == method);
                return true;
            }
            i += 1;
        }
        false
    }
}

impl Default for EpisodeSearchConfig {
    /// The usual methods, ordered by reciprocal ranks.
    fn default() -> (r: EpisodeSearchConfig)
        ensures
            r@ == scope(
                EpisodeSearchConfig::usual_methods(),
                EpisodeReranker::Rrf,
                DEFAULT_MMR_LAMBDA,
            ),
    {
        EpisodeSearchConfig::with(EpisodeSearchConfig::hybrid(), EpisodeReranker::Rrf)
    }
}

/// How communities are searched.
#[derive(Clone, Copy, Debug, PartialEq, Eq, Structural)]
pub enum CommunitySearchMethod {
    /// By the similarity of embeddings.
    CosineSimilarity,
    /// By words.
    Bm25,
}

/// How communities that were found are ordered.
#[derive(Clone, Copy, Debug, PartialEq, Eq, Structural)]
pub enum CommunityReranker {
    /// By reciprocal ranks.
    Rrf,
    /// By relevance and diversity.
    Mmr,
    /// By a model that scores passages.
    CrossEncoder,
}

/// The search for communities.
#[derive(Debug)]
pub struct CommunitySearchConfig {
    pub search_methods: Vec<CommunitySearchMethod>,
    pub reranker: CommunityReranker,
    /// The least cosine similarity of a result, as the bits of a single-precision number.
    pub sim_min_score: u32,
    /// The weight of relevance against diversity, as the bits of a double-precision number.
    pub mmr_lambda: u64,
    pub bfs_max_depth: usize,
}

impl View for CommunitySearchConfig {
    type V = ScopeView<CommunitySearchMethod, CommunityReranker>;

    open spec fn view(&self) -> ScopeView<CommunitySearchMethod, CommunityReranker> {
        ScopeView {
            search_methods: self.search_methods@,
            reranker: self.reranker,
            sim_min_score: self.sim_min_score,
            mmr_lambda: self.mmr_lambda,
            bfs_max_depth: self.bfs_max_depth,
        }
    }
}

impl Clone for CommunitySearchConfig {
    fn clone(&self) -> (r: CommunitySearchConfig)
        ensures
            r@ == self@,
    {
        let search_methods = self.search_methods.clone();
        assert(search_methods@ =~= self.search_methods@);
        CommunitySearchConfig {
            search_methods,
            reranker: self.reranker,
            sim_min_score: self.sim_min_score,
            mmr_lambda: self.mmr_lambda,
            bfs_max_depth: self.bfs_max_depth,
        }
    }
}

impl CommunitySearchConfig {
    /// A search with the usual limits.
    pub fn with(
        search_methods: Vec<CommunitySearchMethod>,
        reranker: CommunityReranker,
    ) -> (r: CommunitySearchConfig)
        ensures
            r@ == scope(search_methods@, reranker, DEFAULT_MMR_LAMBDA),
    {
        CommunitySearchConfig {
            search_methods,
            reranker,
            sim_min_score: DEFAULT_MIN_SCORE,
            mmr_lambda: DEFAULT_MMR_LAMBDA,
            bfs_max_depth: MAX_SEARCH_DEPTH,
        }
    }

    /// The search with another weight of relevance against diversity.
    pub fn weighing(self, mmr_lambda: u64) -> (r: CommunitySearchConfig)
        ensures
            r@ == (ScopeView { mmr_lambda, ..self@ }),
    {
        let mut config = self;
        config.mmr_lambda = mmr_lambda;
        config
    }

    /// The usual methods.
    pub open spec fn usual_methods() -> Seq<CommunitySearchMethod> {
        seq![CommunitySearchMethod::Bm25, CommunitySearchMethod::CosineSimilarity]
    }

    /// The usual methods.
    pub fn hybrid() -> (r: Vec<CommunitySearchMethod>)
        ensures
            r@ == CommunitySearchConfig::usual_methods(),
    {
        let mut methods: Vec<CommunitySearchMethod> = Vec::new();
        methods.push(CommunitySearchMethod::Bm25);
        methods.push(CommunitySearchMethod::CosineSimilarity);
        assert(methods@ =~= CommunitySearchConfig::usual_methods());
        methods
    }

    /// Tells whether a method is used.
    pub fn uses(&self, method: CommunitySearchMethod) -> (r: bool)
        ensures
            r == self@.search_methods.contains(method),
    {
        let mut i: usize = 0;
        while i < self.search_methods.len()
            invariant
                i <= self.search_methods@.len(),
                forall|j: int| 0 <= j < i ==> self.search_methods@[j] != method,
            decreases self.search_methods.len() - i,
        {
            if self.search_methods[i] == method {
                assert(self.search_methods@[i as int] == method);
                return true;
            }
            i += 1;
        }
        false
    }
}

impl Default for CommunitySearchConfig {
    /// The usual methods, ordered by reciprocal ranks.
    fn default() -> (r: CommunitySearchConfig)
        ensures
            r@ == scope(
                CommunitySearchConfig::usual_methods(),
                CommunityReranker::Rrf,
                DEFAULT_MMR_LAMBDA,
            ),
    {
        CommunitySearchConfig::with(CommunitySearchConfig::hybrid(), CommunityReranker::Rrf)
    }
}

/// A search over several scopes. A scope without a configuration is not searched.
#[derive(Debug)]
pub struct SearchConfig {
    pub edge_config: Option<EdgeSearchConfig>,
    pub node_config: Option<NodeSearchConfig>,
    pub episode_config: Option<EpisodeSearchConfig>,
    pub community_config: Option<CommunitySearchConfig>,
    /// How many results each scope yields.
    pub limit: usize,
    /// The least score of a result.
    pub reranker_min_score: Score,
}

/// [`SearchConfig`] as plain values.
pub struct SearchConfigView {
    pub edge: Option<ScopeView<EdgeSearchMethod, EdgeReranker>>,
    pub node: Option<ScopeView<NodeSearchMethod, NodeReranker>>,
    pub episode: Option<ScopeView<EpisodeSearchMethod, EpisodeReranker>>,
    pub community: Option<ScopeView<CommunitySearchMethod, CommunityReranker>>,
    pub limit: usize,
    pub reranker_min_score: Score,
}

/// The view of an optional value.
pub open spec fn opt<T: View>(t: Option<T>) -> Option<T::V> {
    match t {
        Some(v) => Some(v@),
        None => None,
    }
}

impl View for SearchConfig {
    type V = SearchConfigView;

    open spec fn view(&self) -> SearchConfigView {
        SearchConfigView {
            edge: opt(self.edge_config),
            node: opt(self.node_config),
            episode: opt(self.episode_config),
            community: opt(self.community_config),
            limit: self.limit,
            reranker_min_score: self.reranker_min_score,
        }
    }
}

} // verus!
