pub mod local_thread_pool;
