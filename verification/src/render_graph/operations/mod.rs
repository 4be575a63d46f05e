pub mod gpu_operation;
