//! Verified planning and bookkeeping for a set of machine-learning compute
//! primitives: argument validation, launch geometry, backend routing, seeded
//! sampling, neighbour selection, clustering repairs, forest construction
//! plans and solver control flow.

pub mod arith;
pub mod backend;
pub mod chunks;
pub mod error;
pub mod flag;
pub mod float_order;
pub mod incremental_svd;
pub mod kernel_matrix;
pub mod kmeans;
pub mod knn;
pub mod knn_host;
pub mod laplacian;
pub mod launch;
pub mod lbfgs;
pub mod linear_predict;
pub mod matrix;
pub mod mutual_reachability;
pub mod nnls;
pub mod normal_eq;
pub mod radius;
pub mod radius_host;
pub mod radix;
pub mod random_forest;
pub mod ranking;
pub mod ransac_device;
pub mod ransac_host;
pub mod reduce;
pub mod ridge_gcv;
pub mod rng;
pub mod seqs;
