//! Runtime-rank tensors, their index arithmetic and reverse-mode differentiation.

pub mod ad;
pub mod ad_axes;
pub mod ad_composed;
pub mod ad_fused;
pub mod algebra;
pub mod bend_law;
pub mod block;
pub mod block_flow;
pub mod block_grads;
pub mod block_graph;
pub mod block_law;
pub mod block_shapes;
pub mod broadcast_law;
pub mod calculus;
pub mod cat_law;
pub mod choice_law;
pub mod class_law;
pub mod classes;
pub mod construct;
pub mod cpu;
pub mod dag;
pub mod device;
pub mod devices;
pub mod dtype;
pub mod elementwise;
pub mod ends_law;
pub mod error;
pub mod extremes;
pub mod factor_law;
pub mod fitting;
pub mod fused;
pub mod gpu;
pub mod guarded;
pub mod index;
pub mod indexing;
pub mod joining;
pub mod laws;
pub mod likelihood_law;
pub mod linear_law;
pub mod lines;
pub mod log_prob_law;
pub mod lookup;
pub mod loss;
pub mod mask_law;
pub mod masking;
pub mod matmul;
pub mod matmul_law;
pub mod most_law;
pub mod nn;
pub mod nodes;
pub mod norm_law;
pub mod normal;
pub mod offloaded;
pub mod optim;
pub mod optim_law;
pub mod outline;
pub mod par;
pub mod pieces;
pub mod pointwise_law;
pub mod product_law;
pub mod products;
pub mod reduce;
pub mod repeat;
pub mod ring;
pub mod rms_law;
pub mod route_law;
pub mod routes;
pub mod rows;
pub mod rules;
pub mod scalar;
pub mod scan;
pub mod scan_law;
pub mod score_law;
pub mod shape;
pub mod slopes;
pub mod slopes_law;
pub mod softmax;
pub mod softmax_law;
pub mod softmax_values;
pub mod spread_law;
pub mod storage;
pub mod sum_law;
pub mod tape;
pub mod tensor;
pub mod text;
pub mod turn_law;
pub mod unary;
pub mod unrolled;
pub mod views;
pub mod widened;
