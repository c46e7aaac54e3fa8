pub mod pool_loader;
