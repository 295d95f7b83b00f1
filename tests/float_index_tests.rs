use rand::Rng;
use swarc::graph::HNSWIndex as Graph;
use swarc::types::{DistanceMetric, Document};

// A float-vector front over the index: distances are computed here in f32
// and handed to the index as order-preserving keys.

fn order_key(d: f32) -> u32 {
    if d.is_nan() {
        return u32::MAX;
    }
    let d = if d == 0.0 { 0.0f32 } else { d };
    let bits = d.to_bits();
    if bits & 0x8000_0000 != 0 {
        !bits
    } else {
        bits | 0x8000_0000
    }
}

fn score_key(s: f32) -> u32 {
    if s.is_finite() {
        order_key(s).min(u32::MAX - 1)
    } else {
        u32::MAX
    }
}

fn euclid(a: &[f32], b: &[f32]) -> f32 {
    a.iter().zip(b.iter()).map(|(x, y)| (x - y).powi(2)).sum::<f32>().sqrt()
}

struct Node<'a, T> {
    id: String,
    embedding: Vec<f32>,
    document: Option<&'a Document<T>>,
}

struct HNSWIndex<T> {
    graph: Graph<(Vec<f32>, Option<Document<T>>)>,
    m: usize,
    m_max: usize,
    ef_construction: usize,
    entry_point: Option<usize>,
}

impl<T> HNSWIndex<T> {
    fn new(dim: usize, m: usize, ef_construction: usize) -> Self {
        let graph = Graph::new_with_distance(dim, m, ef_construction, DistanceMetric::Euclidean);
        let p = graph.params();
        HNSWIndex { graph, m: p.m, m_max: p.m_max, ef_construction: p.ef_construction, entry_point: None }
    }

    fn generate_level(&self) -> usize {
        let mut rng = rand::thread_rng();
        let mut u: f32 = rng.gen::<f32>();
        while u <= 0.0 {
            u = rng.gen::<f32>();
        }
        (-f32::ln(u) / f32::ln(2.0)) as usize
    }

    fn len(&self) -> usize {
        self.graph.len()
    }

    fn is_empty(&self) -> bool {
        self.graph.is_empty()
    }

    fn contains(&self, id: &str) -> bool {
        self.graph.contains(id)
    }

    fn get_all_ids(&self) -> Vec<String> {
        self.graph.get_all_ids()
    }

    fn get_node(&self, id: &str) -> Option<Node<'_, T>> {
        let s = self.graph.slot_of(id)?;
        let (e, d) = self.graph.item_at(s);
        Some(Node { id: self.graph.id_at(s).clone(), embedding: e.clone(), document: d.as_ref() })
    }

    fn emb(&self, s: usize) -> &Vec<f32> {
        &self.graph.item_at(s).0
    }

    fn distances(&self, q: &[f32]) -> (Vec<f32>, Vec<u32>) {
        let d: Vec<f32> = (0..self.graph.len()).map(|i| euclid(q, self.emb(i))).collect();
        let k = d.iter().map(|&x| order_key(x)).collect();
        (d, k)
    }

    fn select_neighbors(&self, candidates: &[(usize, f32)], m: usize) -> Vec<usize> {
        let cands: Vec<(usize, u32)> = candidates.iter().map(|&(s, d)| (s, order_key(d))).collect();
        let n = cands.len();
        let mut score = vec![vec![0u32; n]; n];
        for i in 0..n {
            for j in 0..n {
                if i != j {
                    score[i][j] = score_key(candidates[i].1 / euclid(self.emb(candidates[i].0), self.emb(candidates[j].0)));
                }
            }
        }
        self.graph.select_neighbors(&cands, &score, m)
    }

    fn insert(&mut self, id: String, embedding: Vec<f32>, document: Option<Document<T>>) -> Result<(), String> {
        let level = self.generate_level();
        let (d, keys) = self.distances(&embedding);
        let items: Vec<Vec<f32>> = (0..self.graph.len()).map(|i| self.emb(i).clone()).collect();
        let pair = |c: usize, s: usize| score_key(d[c] / euclid(&items[c], &items[s]));
        let label = id.clone();
        let r = self
            .graph
            .insert(id, (embedding, document), level, &keys, &pair)
            .map_err(|_| format!("Node with id '{}' already exists", label));
        self.entry_point = self.graph.entry_point();
        r
    }

    fn insert_multiple(&mut self, items: Vec<(String, Vec<f32>, Option<Document<T>>)>) -> Result<Vec<Result<(), String>>, String> {
        Ok(items.into_iter().map(|(i, e, d)| self.insert(i, e, d)).collect())
    }

    fn insert_parallel(&mut self, items: Vec<(String, Vec<f32>, Option<Document<T>>)>) -> Result<Vec<Result<(), String>>, String> {
        let levels: Vec<usize> = items.iter().map(|_| self.generate_level()).collect();
        let start = self.graph.entry_point();
        let first = self.graph.len();
        let ids: Vec<String> = items.iter().map(|(i, _, _)| i.clone()).collect();
        let batch = items.into_iter().map(|(i, e, d)| (i, (e, d))).collect();
        let order = self.graph.insert_batch(batch, &levels).map_err(|_| self.batch_error(&ids))?;
        let mut links = Vec::new();
        for p in 0..order.len() {
            let slot = first + p;
            let (d, keys) = self.distances(self.emb(slot));
            let pair = |c: usize, s: usize| score_key(d[c] / euclid(self.emb(c), self.emb(s)));
            links.push((slot, self.graph.compute_connections(&keys, levels[order[p]], Some(slot), start, &pair)));
        }
        for (slot, conns) in links {
            self.graph.commit_links(slot, conns);
        }
        self.entry_point = self.graph.entry_point();
        Ok(order.iter().map(|_| Ok(())).collect())
    }

    fn batch_error(&self, ids: &[String]) -> String {
        let owned: Vec<String> = ids.to_vec();
        match self.graph.batch_conflict(&owned) {
            Some((t, true)) => format!("Duplicate ID found: '{}'", ids[t]),
            Some((t, false)) => format!("Node with id '{}' already exists in index", ids[t]),
            None => "Batch refused".to_string(),
        }
    }

    fn search(&self, query: &[f32], k: usize) -> Vec<(String, f32, Option<&Document<T>>)> {
        let (d, keys) = self.distances(query);
        self.graph
            .search(&keys, k)
            .into_iter()
            .map(|(s, _)| (self.graph.id_at(s).clone(), d[s], self.graph.item_at(s).1.as_ref()))
            .collect()
    }

    fn remove(&mut self, id: &str) -> Result<Option<Document<T>>, String> {
        let r = self.graph.remove(id).map(|(_, d)| d).map_err(|_| format!("Node with id '{}' not found", id));
        self.entry_point = self.graph.entry_point();
        r
    }

    fn remove_multiple(&mut self, ids: &[&str]) -> Result<Vec<Option<Document<T>>>, String> {
        let owned: Vec<String> = ids.iter().map(|s| s.to_string()).collect();
        let r = self
            .graph
            .remove_multiple(&owned)
            .map(|v| v.into_iter().map(|(_, d)| d).collect())
            .map_err(|_| "Node not found".to_string());
        self.entry_point = self.graph.entry_point();
        r
    }

    fn clear(&mut self) {
        self.graph.clear();
        self.entry_point = None;
    }

    fn rebalance(&mut self) -> Result<(), String> {
        for (i, _l, j) in self.graph.asymmetric_links() {
            println!("Warning: Non-bidirectional connection found between node {} and {}", i, j);
        }
        Ok(())
    }
}



#[test]
fn test_index_creation() {
    let index: HNSWIndex<String> = HNSWIndex::new(128, 16, 200);
    
    assert_eq!(index.len(), 0);
    assert!(index.is_empty());
    assert!(index.entry_point.is_none());
    assert_eq!(index.m, 16);
    assert_eq!(index.m_max, 16);
    assert_eq!(index.ef_construction, 200);
}

#[test]
fn test_index_creation_with_different_parameters() {
    let index1: HNSWIndex<String> = HNSWIndex::new(64, 8, 100);
    let index2: HNSWIndex<String> = HNSWIndex::new(256, 32, 500);
    
    assert_eq!(index1.m, 8);
    assert_eq!(index1.ef_construction, 100);
    
    assert_eq!(index2.m, 32);
    assert_eq!(index2.ef_construction, 500);
}

#[test]
fn test_index_utility_methods() {
    let mut index = HNSWIndex::new(128, 16, 200);
    
    // Initially empty
    assert!(index.is_empty());
    assert_eq!(index.len(), 0);
    assert!(index.get_all_ids().is_empty());
    
    // Insert a node
    let doc = Document {
        id: "test_doc".to_string(),
        data: "test content".to_string(),
    };
    
    let embedding = vec![1.0, 2.0, 3.0];
    index.insert("node1".to_string(), embedding, Some(doc)).unwrap();
    
    // Check state after insertion
    assert!(!index.is_empty());
    assert_eq!(index.len(), 1);
    assert_eq!(index.get_all_ids(), vec!["node1"]);
    
    // Check get_node
    let node = index.get_node("node1");
    assert!(node.is_some());
    assert_eq!(node.unwrap().id, "node1");
    
    // Check non-existent node
    let non_existent = index.get_node("non_existent");
    assert!(non_existent.is_none());
}

#[test]
fn test_index_with_different_data_types() {
    // Test with String data
    let mut index_string = HNSWIndex::new(3, 16, 200);
    let doc_string = Document {
        id: "string_doc".to_string(),
        data: "string content".to_string(),
    };
    index_string.insert("node1".to_string(), vec![1.0, 2.0, 3.0], Some(doc_string)).unwrap();
    
    // Test with numeric data
    let mut index_number = HNSWIndex::new(3, 16, 200);
    let doc_number = Document {
        id: "number_doc".to_string(),
        data: 42,
    };
    index_number.insert("node1".to_string(), vec![1.0, 2.0, 3.0], Some(doc_number)).unwrap();
    
    // Test with vector data
    let mut index_vector = HNSWIndex::new(3, 16, 200);
    let doc_vector = Document {
        id: "vector_doc".to_string(),
        data: vec![1, 2, 3],
    };
    index_vector.insert("node1".to_string(), vec![1.0, 2.0, 3.0], Some(doc_vector)).unwrap();
    
    // All should work
    assert_eq!(index_string.len(), 1);
    assert_eq!(index_number.len(), 1);
    assert_eq!(index_vector.len(), 1);
}


#[test]
fn test_insert_single_node() {
    let mut index: HNSWIndex<String> = HNSWIndex::new(3, 16, 200);
    
    let doc = Document {
        id: "test_doc".to_string(),
        data: "test content".to_string(),
    };
    
    let embedding = vec![1.0, 2.0, 3.0];
    let result = index.insert("node1".to_string(), embedding, Some(doc));
    
    assert!(result.is_ok());
    assert_eq!(index.len(), 1);
    assert!(!index.is_empty());
    assert_eq!(index.get_all_ids(), vec!["node1"]);
}

#[test]
fn test_insert_multiple_nodes() {
    let mut index: HNSWIndex<String> = HNSWIndex::new(3, 16, 200);
    
    for i in 0..5 {
        let doc = Document {
            id: format!("doc_{}", i),
            data: format!("content_{}", i),
        };
        
        let embedding = vec![i as f32, (i + 1) as f32, (i + 2) as f32];
        let result = index.insert(format!("node_{}", i), embedding, Some(doc));
        
        assert!(result.is_ok());
    }
    
    assert_eq!(index.len(), 5);
    assert_eq!(index.get_all_ids().len(), 5);
}

#[test]
fn test_insert_duplicate_id() {
    let mut index: HNSWIndex<String> = HNSWIndex::new(3, 16, 200);
    
    let doc1 = Document {
        id: "doc1".to_string(),
        data: "content1".to_string(),
    };
    
    let doc2 = Document {
        id: "doc2".to_string(),
        data: "content2".to_string(),
    };
    
    let embedding1 = vec![1.0, 2.0, 3.0];
    let embedding2 = vec![4.0, 5.0, 6.0];
    
    // First insertion should succeed
    let result1 = index.insert("node1".to_string(), embedding1, Some(doc1));
    assert!(result1.is_ok());
    
    // Second insertion with same ID should fail
    let result2 = index.insert("node1".to_string(), embedding2, Some(doc2));
    assert!(result2.is_err());
    assert!(result2.unwrap_err().contains("already exists"));
    
    // Index should still have only one node
    assert_eq!(index.len(), 1);
}

#[test]
fn test_insert_without_document() {
    let mut index: HNSWIndex<String> = HNSWIndex::new(3, 16, 200);
    
    let embedding = vec![1.0, 2.0, 3.0];
    let result = index.insert("node1".to_string(), embedding, None);
    
    assert!(result.is_ok());
    assert_eq!(index.len(), 1);
    
    let node = index.get_node("node1").unwrap();
    assert!(node.document.is_none());
}

#[test]
fn test_insert_different_embedding_dimensions() {
    let mut index = HNSWIndex::new(5, 16, 200);
    
    // Insert nodes with different embedding dimensions
    let embeddings = vec![
        vec![1.0, 2.0, 3.0, 4.0, 5.0],
        vec![0.0, 0.0, 0.0, 0.0, 0.0],
        vec![-1.0, -2.0, -3.0, -4.0, -5.0],
    ];
    
    for (i, embedding) in embeddings.iter().enumerate() {
        let doc = Document {
            id: format!("doc_{}", i),
            data: format!("content_{}", i),
        };
        
        let result = index.insert(format!("node_{}", i), embedding.clone(), Some(doc));
        assert!(result.is_ok());
    }
    
    assert_eq!(index.len(), 3);
}

#[test]
fn test_select_neighbors() {
    let mut index: HNSWIndex<String> = HNSWIndex::new(3, 16, 200);
    
    // Insert some nodes to create a small graph
    for i in 0..10 {
        let embedding = vec![i as f32, (i + 1) as f32, (i + 2) as f32];
        index.insert(format!("node_{}", i), embedding, None).unwrap();
    }
    
    // Create some candidate nodes with distances
    let candidates = vec![
        (0, 1.0),
        (1, 2.0),
        (2, 3.0),
        (3, 4.0),
        (4, 5.0),
    ];
    
    // Select 3 neighbors
    let selected = index.select_neighbors(&candidates, 3);
    
    // Should select 3 neighbors
    assert_eq!(selected.len(), 3);
    
    // Should include the closest neighbor (index 0)
    assert!(selected.contains(&0));
}

#[test]
fn test_select_neighbors_less_candidates_than_m() {
    let mut index: HNSWIndex<String> = HNSWIndex::new(3, 16, 200);
    
    // Insert some nodes
    for i in 0..5 {
        let embedding = vec![i as f32, (i + 1) as f32, (i + 2) as f32];
        index.insert(format!("node_{}", i), embedding, None).unwrap();
    }
    
    let candidates = vec![(0, 1.0), (1, 2.0)];
    
    // Select 5 neighbors but only 2 candidates available
    let selected = index.select_neighbors(&candidates, 5);
    
    // Should select all available candidates
    assert_eq!(selected.len(), 2);
    assert!(selected.contains(&0));
    assert!(selected.contains(&1));
}

#[test]
fn test_rebalance() {
    let mut index: HNSWIndex<String> = HNSWIndex::new(3, 16, 200);
    
    // Insert some nodes
    for i in 0..10 {
        let embedding = vec![i as f32, (i + 1) as f32, (i + 2) as f32];
        index.insert(format!("node_{}", i), embedding, None).unwrap();
    }
    
    // Rebalance should succeed
    let result = index.rebalance();
    assert!(result.is_ok());
    
    // Index should still have all nodes
    assert_eq!(index.len(), 10);
}

#[test]
fn test_rebalance_empty_index() {
    let mut index: HNSWIndex<String> = HNSWIndex::new(3, 16, 200);
    
    // Rebalance empty index should succeed
    let result = index.rebalance();
    assert!(result.is_ok());
    
    // Index should still be empty
    assert!(index.is_empty());
}

#[test]
fn test_insert_large_dataset() {
    let mut index = HNSWIndex::new(10, 16, 200);
    
    // Insert 100 nodes
    for i in 0..100 {
        let embedding: Vec<f32> = (0..10).map(|j| (i + j) as f32).collect();
        let doc = Document {
            id: format!("doc_{}", i),
            data: format!("content_{}", i),
        };
        
        let result = index.insert(format!("node_{}", i), embedding, Some(doc));
        assert!(result.is_ok());
    }
    
    assert_eq!(index.len(), 100);
    
    // Verify all nodes are accessible
    for i in 0..100 {
        let node = index.get_node(&format!("node_{}", i));
        assert!(node.is_some());
        assert_eq!(node.unwrap().id, format!("node_{}", i));
    }
}

#[test]
fn test_insert_with_zero_embedding() {
    let mut index: HNSWIndex<String> = HNSWIndex::new(3, 16, 200);
    
    let zero_embedding = vec![0.0, 0.0, 0.0];
    let doc = Document {
        id: "zero_doc".to_string(),
        data: "zero content".to_string(),
    };
    
    let result = index.insert("zero_node".to_string(), zero_embedding, Some(doc));
    assert!(result.is_ok());
    
    let node = index.get_node("zero_node").unwrap();
    assert_eq!(node.embedding, vec![0.0, 0.0, 0.0]);
}

#[test]
fn test_insert_with_negative_embeddings() {
    let mut index: HNSWIndex<String> = HNSWIndex::new(3, 16, 200);
    
    let negative_embedding = vec![-1.0, -2.0, -3.0];
    let doc = Document {
        id: "negative_doc".to_string(),
        data: "negative content".to_string(),
    };
    
    let result = index.insert("negative_node".to_string(), negative_embedding, Some(doc));
    assert!(result.is_ok());
    
    let node = index.get_node("negative_node").unwrap();
    assert_eq!(node.embedding, vec![-1.0, -2.0, -3.0]);
}


#[test]
fn test_search_empty_index() {
    let index: HNSWIndex<String> = HNSWIndex::new(3, 16, 200);
    
    let query = vec![1.0, 2.0, 3.0];
    let results = index.search(&query, 5);
    
    assert!(results.is_empty());
}

#[test]
fn test_search_single_node() {
    let mut index: HNSWIndex<String> = HNSWIndex::new(3, 16, 200);
    
    let doc = Document {
        id: "test_doc".to_string(),
        data: "test content".to_string(),
    };
    
    let embedding = vec![1.0, 2.0, 3.0];
    index.insert("node1".to_string(), embedding, Some(doc)).unwrap();
    
    let query = vec![1.0, 2.0, 3.0];
    let results = index.search(&query, 1);
    
    assert_eq!(results.len(), 1);
    assert_eq!(results[0].0, "node1");
    assert!((results[0].1 - 0.0).abs() < 1e-6); // Distance should be 0
    assert!(results[0].2.is_some());
}

#[test]
fn test_search_multiple_nodes() {
    let mut index: HNSWIndex<String> = HNSWIndex::new(3, 16, 200);
    
    // Insert nodes with known distances
    let embeddings = vec![
        vec![0.0, 0.0, 0.0],  // node0
        vec![1.0, 0.0, 0.0],  // node1 - distance 1 from origin
        vec![2.0, 0.0, 0.0],  // node2 - distance 2 from origin
        vec![0.0, 1.0, 0.0],  // node3 - distance 1 from origin
        vec![0.0, 0.0, 1.0],  // node4 - distance 1 from origin
    ];
    
    for (i, embedding) in embeddings.iter().enumerate() {
        let doc = Document {
            id: format!("doc_{}", i),
            data: format!("content_{}", i),
        };
        index.insert(format!("node_{}", i), embedding.clone(), Some(doc)).unwrap();
    }
    
    let query = vec![0.0, 0.0, 0.0];
    let results = index.search(&query, 3);
    
    assert_eq!(results.len(), 3);
    
    // Results should be sorted by distance
    for i in 1..results.len() {
        assert!(results[i-1].1 <= results[i].1);
    }
    
    // First result should be node0 (distance 0)
    assert_eq!(results[0].0, "node_0");
    assert!((results[0].1 - 0.0).abs() < 1e-6);
}

#[test]
fn test_search_k_larger_than_nodes() {
    let mut index: HNSWIndex<String> = HNSWIndex::new(3, 16, 200);
    
    // Insert only 2 nodes
    for i in 0..2 {
        let embedding = vec![i as f32, 0.0, 0.0];
        let doc = Document {
            id: format!("doc_{}", i),
            data: format!("content_{}", i),
        };
        index.insert(format!("node_{}", i), embedding, Some(doc)).unwrap();
    }
    
    let query = vec![0.0, 0.0, 0.0];
    let results = index.search(&query, 5); // Request 5 but only 2 available
    
    assert_eq!(results.len(), 2);
}

#[test]
fn test_search_with_different_query() {
    let mut index: HNSWIndex<String> = HNSWIndex::new(3, 16, 200);
    
    // Insert nodes
    for i in 0..5 {
        let embedding = vec![i as f32, (i + 1) as f32, (i + 2) as f32];
        let doc = Document {
            id: format!("doc_{}", i),
            data: format!("content_{}", i),
        };
        index.insert(format!("node_{}", i), embedding, Some(doc)).unwrap();
    }
    
    // Search with a query that's close to one of the nodes
    let query = vec![2.0, 3.0, 4.0]; // Close to node_2
    let results = index.search(&query, 3);
    
    assert_eq!(results.len(), 3);
    
    // Results should be sorted by distance
    for i in 1..results.len() {
        assert!(results[i-1].1 <= results[i].1);
    }
}

#[test]
fn test_search_layer() {
    let mut index: HNSWIndex<String> = HNSWIndex::new(3, 16, 200);
    
    // Insert nodes to create a small graph
    for i in 0..5 {
        let embedding = vec![i as f32, 0.0, 0.0];
        index.insert(format!("node_{}", i), embedding, None).unwrap();
    }
    
    let query = vec![0.0, 0.0, 0.0];
    let _entry_points = vec![0, 1, 2];
    
    // Test search_layer (this is a private method, so we test it indirectly)
    // by checking that search works correctly
    let results = index.search(&query, 3);
    
    assert_eq!(results.len(), 3);
    
    // All results should have valid node IDs
    for (id, _distance, _doc) in &results {
        assert!(id.starts_with("node_"));
    }
}

#[test]
fn test_search_with_zero_query() {
    let mut index: HNSWIndex<String> = HNSWIndex::new(3, 16, 200);
    
    // Insert nodes with different embeddings
    let embeddings = vec![
        vec![1.0, 1.0, 1.0],
        vec![2.0, 2.0, 2.0],
        vec![3.0, 3.0, 3.0],
    ];
    
    for (i, embedding) in embeddings.iter().enumerate() {
        let doc = Document {
            id: format!("doc_{}", i),
            data: format!("content_{}", i),
        };
        index.insert(format!("node_{}", i), embedding.clone(), Some(doc)).unwrap();
    }
    
    let zero_query = vec![0.0, 0.0, 0.0];
    let results = index.search(&zero_query, 2);
    
    assert_eq!(results.len(), 2);
    
    // Results should be sorted by distance from origin
    for i in 1..results.len() {
        assert!(results[i-1].1 <= results[i].1);
    }
}

#[test]
fn test_search_with_negative_query() {
    let mut index: HNSWIndex<String> = HNSWIndex::new(3, 16, 200);
    
    // Insert nodes with positive embeddings
    for i in 0..3 {
        let embedding = vec![i as f32, (i + 1) as f32, (i + 2) as f32];
        let doc = Document {
            id: format!("doc_{}", i),
            data: format!("content_{}", i),
        };
        index.insert(format!("node_{}", i), embedding, Some(doc)).unwrap();
    }
    
    let negative_query = vec![-1.0, -2.0, -3.0];
    let results = index.search(&negative_query, 2);
    
    assert_eq!(results.len(), 2);
    
    // All distances should be positive
    for (_id, distance, _doc) in &results {
        assert!(*distance >= 0.0);
    }
}

#[test]
fn test_search_without_documents() {
    let mut index: HNSWIndex<String> = HNSWIndex::new(3, 16, 200);
    
    // Insert nodes without documents
    for i in 0..3 {
        let embedding = vec![i as f32, 0.0, 0.0];
        index.insert(format!("node_{}", i), embedding, None).unwrap();
    }
    
    let query = vec![0.0, 0.0, 0.0];
    let results = index.search(&query, 3);
    
    assert_eq!(results.len(), 3);
    
    // All documents should be None
    for (_id, _distance, doc) in &results {
        assert!(doc.is_none());
    }
}

#[test]
fn test_search_consistency() {
    let mut index: HNSWIndex<String> = HNSWIndex::new(3, 16, 200);
    
    // Insert nodes
    for i in 0..10 {
        let embedding = vec![i as f32, (i + 1) as f32, (i + 2) as f32];
        let doc = Document {
            id: format!("doc_{}", i),
            data: format!("content_{}", i),
        };
        index.insert(format!("node_{}", i), embedding, Some(doc)).unwrap();
    }
    
    let query = vec![5.0, 6.0, 7.0];
    
    // Run search multiple times - results should be consistent
    let results1 = index.search(&query, 5);
    let results2 = index.search(&query, 5);
    
    assert_eq!(results1.len(), results2.len());
    
    // Results should be the same (deterministic search)
    for i in 0..results1.len() {
        assert_eq!(results1[i].0, results2[i].0);
        assert!((results1[i].1 - results2[i].1).abs() < 1e-6);
    }
}

#[test]
fn test_search_large_k() {
    let mut index: HNSWIndex<String> = HNSWIndex::new(3, 16, 200);
    
    // Insert 20 nodes
    for i in 0..20 {
        let embedding = vec![i as f32, 0.0, 0.0];
        let doc = Document {
            id: format!("doc_{}", i),
            data: format!("content_{}", i),
        };
        index.insert(format!("node_{}", i), embedding, Some(doc)).unwrap();
    }
    
    let query = vec![10.0, 0.0, 0.0];
    let results = index.search(&query, 15);
    
    assert_eq!(results.len(), 15);
    
    // Results should be sorted by distance
    for i in 1..results.len() {
        assert!(results[i-1].1 <= results[i].1);
    }
}


#[test]
fn test_remove_single_node() {
    let mut index: HNSWIndex<String> = HNSWIndex::new(3, 16, 200);
    
    let doc = Document {
        id: "test_doc".to_string(),
        data: "test content".to_string(),
    };
    
    let embedding = vec![1.0, 2.0, 3.0];
    index.insert("node1".to_string(), embedding, Some(doc.clone())).unwrap();
    
    assert_eq!(index.len(), 1);
    assert!(index.contains("node1"));
    
    let removed_doc = index.remove("node1").unwrap();
    
    assert_eq!(index.len(), 0);
    assert!(index.is_empty());
    assert!(!index.contains("node1"));
    assert!(removed_doc.is_some());
    assert_eq!(removed_doc.unwrap().id, "test_doc");
}

#[test]
fn test_remove_nonexistent_node() {
    let mut index: HNSWIndex<String> = HNSWIndex::new(3, 16, 200);
    
    let result = index.remove("nonexistent");
    assert!(result.is_err());
    assert!(result.unwrap_err().contains("not found"));
}

#[test]
fn test_remove_from_empty_index() {
    let mut index: HNSWIndex<String> = HNSWIndex::new(3, 16, 200);
    
    let result = index.remove("any_node");
    assert!(result.is_err());
}

#[test]
fn test_remove_multiple_nodes() {
    let mut index: HNSWIndex<String> = HNSWIndex::new(3, 16, 200);
    
    // Insert multiple nodes
    for i in 0..5 {
        let doc = Document {
            id: format!("doc_{}", i),
            data: format!("content_{}", i),
        };
        let embedding = vec![i as f32, 0.0, 0.0];
        index.insert(format!("node_{}", i), embedding, Some(doc)).unwrap();
    }
    
    assert_eq!(index.len(), 5);
    
    // Remove multiple nodes
    let ids = ["node_1", "node_3", "node_4"];
    let removed_docs = index.remove_multiple(&ids).unwrap();
    
    assert_eq!(index.len(), 2);
    assert_eq!(removed_docs.len(), 3);
    
    // Check remaining nodes
    assert!(index.contains("node_0"));
    assert!(index.contains("node_2"));
    assert!(!index.contains("node_1"));
    assert!(!index.contains("node_3"));
    assert!(!index.contains("node_4"));
}

#[test]
fn test_remove_multiple_with_nonexistent() {
    let mut index: HNSWIndex<String> = HNSWIndex::new(3, 16, 200);
    
    // Insert one node
    let doc = Document {
        id: "doc_0".to_string(),
        data: "content_0".to_string(),
    };
    let embedding = vec![0.0, 0.0, 0.0];
    index.insert("node_0".to_string(), embedding, Some(doc)).unwrap();
    
    // Try to remove multiple nodes including nonexistent ones
    let ids = ["node_0", "nonexistent", "node_1"];
    let result = index.remove_multiple(&ids);
    
    assert!(result.is_err());
    assert!(result.unwrap_err().contains("not found"));
    
    // Original node should still be there
    assert_eq!(index.len(), 1);
    assert!(index.contains("node_0"));
}

#[test]
fn test_clear_index() {
    let mut index: HNSWIndex<String> = HNSWIndex::new(3, 16, 200);
    
    // Insert multiple nodes
    for i in 0..10 {
        let doc = Document {
            id: format!("doc_{}", i),
            data: format!("content_{}", i),
        };
        let embedding = vec![i as f32, 0.0, 0.0];
        index.insert(format!("node_{}", i), embedding, Some(doc)).unwrap();
    }
    
    assert_eq!(index.len(), 10);
    assert!(!index.is_empty());
    
    // Clear the index
    index.clear();
    
    assert_eq!(index.len(), 0);
    assert!(index.is_empty());
    assert!(index.get_all_ids().is_empty());
}

#[test]
fn test_clear_empty_index() {
    let mut index: HNSWIndex<String> = HNSWIndex::new(3, 16, 200);
    
    assert!(index.is_empty());
    
    // Clear empty index should work
    index.clear();
    
    assert!(index.is_empty());
    assert_eq!(index.len(), 0);
}

#[test]
fn test_contains() {
    let mut index: HNSWIndex<String> = HNSWIndex::new(3, 16, 200);
    
    // Initially empty
    assert!(!index.contains("node1"));
    
    // Insert a node
    let doc = Document {
        id: "test_doc".to_string(),
        data: "test content".to_string(),
    };
    let embedding = vec![1.0, 2.0, 3.0];
    index.insert("node1".to_string(), embedding, Some(doc)).unwrap();
    
    // Should contain the node
    assert!(index.contains("node1"));
    assert!(!index.contains("node2"));
    
    // Remove the node
    index.remove("node1").unwrap();
    
    // Should no longer contain the node
    assert!(!index.contains("node1"));
}

#[test]
fn test_remove_and_reinsert() {
    let mut index: HNSWIndex<String> = HNSWIndex::new(3, 16, 200);
    
    let doc1 = Document {
        id: "doc1".to_string(),
        data: "content1".to_string(),
    };
    let embedding1 = vec![1.0, 2.0, 3.0];
    
    // Insert node
    index.insert("node1".to_string(), embedding1.clone(), Some(doc1.clone())).unwrap();
    assert_eq!(index.len(), 1);
    
    // Remove node
    let removed_doc = index.remove("node1").unwrap();
    assert_eq!(index.len(), 0);
    assert!(removed_doc.is_some());
    
    // Reinsert with same ID
    let doc2 = Document {
        id: "doc2".to_string(),
        data: "content2".to_string(),
    };
    index.insert("node1".to_string(), embedding1, Some(doc2)).unwrap();
    assert_eq!(index.len(), 1);
    assert!(index.contains("node1"));
}

#[test]
fn test_remove_node_without_document() {
    let mut index: HNSWIndex<String> = HNSWIndex::new(3, 16, 200);
    
    let embedding = vec![1.0, 2.0, 3.0];
    index.insert("node1".to_string(), embedding, None).unwrap();
    
    assert_eq!(index.len(), 1);
    
    let removed_doc = index.remove("node1").unwrap();
    
    assert_eq!(index.len(), 0);
    assert!(removed_doc.is_none());
}

#[test]
fn test_remove_affects_search() {
    let mut index: HNSWIndex<String> = HNSWIndex::new(3, 16, 200);
    
    // Insert multiple nodes
    for i in 0..5 {
        let doc = Document {
            id: format!("doc_{}", i),
            data: format!("content_{}", i),
        };
        let embedding = vec![i as f32, 0.0, 0.0];
        index.insert(format!("node_{}", i), embedding, Some(doc)).unwrap();
    }
    
    let query = vec![0.0, 0.0, 0.0];
    let results_before = index.search(&query, 5);
    assert_eq!(results_before.len(), 5);
    
    // Remove a node
    index.remove("node_2").unwrap();
    
    // Search again
    let results_after = index.search(&query, 5);
    assert_eq!(results_after.len(), 4);
    
    // The removed node should not be in results
    for (id, _distance, _doc) in results_after {
        assert_ne!(id, "node_2");
    }
}

#[test]
fn test_remove_multiple_affects_search() {
    let mut index: HNSWIndex<String> = HNSWIndex::new(3, 16, 200);
    
    // Insert multiple nodes
    for i in 0..10 {
        let doc = Document {
            id: format!("doc_{}", i),
            data: format!("content_{}", i),
        };
        let embedding = vec![i as f32, 0.0, 0.0];
        index.insert(format!("node_{}", i), embedding, Some(doc)).unwrap();
    }
    
    let query = vec![5.0, 0.0, 0.0];
    let results_before = index.search(&query, 10);
    assert_eq!(results_before.len(), 10);
    
    // Remove multiple nodes
    let ids = ["node_1", "node_3", "node_5", "node_7"];
    index.remove_multiple(&ids).unwrap();
    
    // Search again
    let results_after = index.search(&query, 10);
    assert_eq!(results_after.len(), 6);
    
    // The removed nodes should not be in results
    for (id, _distance, _doc) in results_after {
        assert!(!ids.contains(&id.as_str()));
    }
}

#[test]
fn test_remove_entry_point() {
    let mut index: HNSWIndex<String> = HNSWIndex::new(3, 16, 200);
    
    // Insert nodes
    for i in 0..5 {
        let doc = Document {
            id: format!("doc_{}", i),
            data: format!("content_{}", i),
        };
        let embedding = vec![i as f32, 0.0, 0.0];
        index.insert(format!("node_{}", i), embedding, Some(doc)).unwrap();
    }
    
    // Remove the first node (likely the entry point)
    index.remove("node_0").unwrap();
    
    // Index should still be functional
    assert_eq!(index.len(), 4);
    
    // Search should still work
    let query = vec![2.0, 0.0, 0.0];
    let results = index.search(&query, 3);
    assert_eq!(results.len(), 3);
}

#[test]
fn test_remove_all_nodes() {
    let mut index: HNSWIndex<String> = HNSWIndex::new(3, 16, 200);
    
    // Insert nodes
    for i in 0..3 {
        let doc = Document {
            id: format!("doc_{}", i),
            data: format!("content_{}", i),
        };
        let embedding = vec![i as f32, 0.0, 0.0];
        index.insert(format!("node_{}", i), embedding, Some(doc)).unwrap();
    }
    
    // Remove all nodes one by one
    for i in 0..3 {
        index.remove(&format!("node_{}", i)).unwrap();
    }
    
    // Index should be empty
    assert!(index.is_empty());
    assert_eq!(index.len(), 0);
    
    // Search should return empty results
    let query = vec![0.0, 0.0, 0.0];
    let results = index.search(&query, 5);
    assert!(results.is_empty());
}


fn generate_random_embedding(dimension: usize) -> Vec<f32> {
    let mut rng = rand::thread_rng();
    (0..dimension)
        .map(|_| rng.gen_range(-1.0..1.0))
        .collect()
}

#[test]
fn test_parallel_insert_empty_list() {
    let mut index: HNSWIndex<String> = HNSWIndex::new(3, 16, 200);
    
    let result = index.insert_parallel(vec![]);
    assert!(result.is_ok());
    assert_eq!(result.unwrap().len(), 0);
    assert_eq!(index.len(), 0);
}

#[test]
fn test_parallel_insert_single_item() {
    let mut index: HNSWIndex<String> = HNSWIndex::new(3, 16, 200);
    
    let embedding = vec![1.0, 2.0, 3.0];
    let doc = Document {
        id: "doc1".to_string(),
        data: "test data".to_string(),
    };
    
    let items = vec![("node1".to_string(), embedding, Some(doc))];
    let result = index.insert_parallel(items);
    
    assert!(result.is_ok());
    let results = result.unwrap();
    assert_eq!(results.len(), 1);
    assert!(results[0].is_ok());
    assert_eq!(index.len(), 1);
    assert!(index.contains("node1"));
}

#[test]
fn test_parallel_insert_multiple_items() {
    let mut index: HNSWIndex<String> = HNSWIndex::new(3, 16, 200);
    
    let items = vec![
        ("node1".to_string(), vec![1.0, 2.0, 3.0], None),
        ("node2".to_string(), vec![4.0, 5.0, 6.0], None),
        ("node3".to_string(), vec![7.0, 8.0, 9.0], None),
    ];
    
    let result = index.insert_parallel(items);
    
    assert!(result.is_ok());
    let results = result.unwrap();
    assert_eq!(results.len(), 3);
    
    for result in &results {
        assert!(result.is_ok());
    }
    
    assert_eq!(index.len(), 3);
    assert!(index.contains("node1"));
    assert!(index.contains("node2"));
    assert!(index.contains("node3"));
}

#[test]
fn test_parallel_insert_with_documents() {
    let mut index: HNSWIndex<String> = HNSWIndex::new(3, 16, 200);
    
    let doc1 = Document {
        id: "doc1".to_string(),
        data: "First document".to_string(),
    };
    
    let doc2 = Document {
        id: "doc2".to_string(),
        data: "Second document".to_string(),
    };
    
    let items = vec![
        ("node1".to_string(), vec![1.0, 2.0, 3.0], Some(doc1)),
        ("node2".to_string(), vec![4.0, 5.0, 6.0], Some(doc2)),
    ];
    
    let result = index.insert_parallel(items);
    
    assert!(result.is_ok());
    let results = result.unwrap();
    assert_eq!(results.len(), 2);
    
    for result in &results {
        assert!(result.is_ok());
    }
    
    assert_eq!(index.len(), 2);
    
    // Verify documents are stored correctly
    let node1 = index.get_node("node1").unwrap();
    assert!(node1.document.is_some());
    assert_eq!(node1.document.as_ref().unwrap().id, "doc1");
    
    let node2 = index.get_node("node2").unwrap();
    assert!(node2.document.is_some());
    assert_eq!(node2.document.as_ref().unwrap().id, "doc2");
}

#[test]
fn test_parallel_insert_duplicate_ids() {
    let mut index: HNSWIndex<String> = HNSWIndex::new(3, 16, 200);
    
    let items = vec![
        ("node1".to_string(), vec![1.0, 2.0, 3.0], None),
        ("node1".to_string(), vec![4.0, 5.0, 6.0], None), // Duplicate ID
    ];
    
    let result = index.insert_parallel(items);
    
    assert!(result.is_err());
    assert!(result.unwrap_err().contains("Duplicate ID found"));
    assert_eq!(index.len(), 0);
}

#[test]
fn test_parallel_insert_existing_id() {
    let mut index: HNSWIndex<String> = HNSWIndex::new(3, 16, 200);
    
    // Insert first node
    index.insert("node1".to_string(), vec![1.0, 2.0, 3.0], None).unwrap();
    
    let items = vec![
        ("node1".to_string(), vec![4.0, 5.0, 6.0], None), // Existing ID
        ("node2".to_string(), vec![7.0, 8.0, 9.0], None),
    ];
    
    let result = index.insert_parallel(items);
    
    assert!(result.is_err());
    assert!(result.unwrap_err().contains("already exists in index"));
    assert_eq!(index.len(), 1); // Only the original node should exist
}

#[test]
fn test_parallel_insert_large_dataset() {
    let mut index: HNSWIndex<String> = HNSWIndex::new(128, 16, 200);
    
    let num_items = 1000;
    let mut items = Vec::new();
    
    for i in 0..num_items {
        let embedding = generate_random_embedding(128);
        let doc = Document {
            id: format!("doc_{}", i),
            data: format!("Content for document {}", i),
        };
        
        items.push((format!("node_{}", i), embedding, Some(doc)));
    }
    
    let result = index.insert_parallel(items);
    
    assert!(result.is_ok());
    let results = result.unwrap();
    assert_eq!(results.len(), num_items);
    
    for result in &results {
        assert!(result.is_ok());
    }
    
    assert_eq!(index.len(), num_items);
    
    // Verify some random nodes exist
    assert!(index.contains("node_0"));
    assert!(index.contains("node_500"));
    assert!(index.contains("node_999"));
}

#[test]
fn test_parallel_vs_sequential_insertion() {
    let dimension = 64;
    let num_items = 100;
    
    // Test parallel insertion
    let mut index_parallel: HNSWIndex<String> = HNSWIndex::new(dimension, 16, 200);
    let mut items_parallel = Vec::new();
    
    for i in 0..num_items {
        let embedding = generate_random_embedding(dimension);
        items_parallel.push((format!("node_{}", i), embedding, None));
    }
    
    let parallel_result = index_parallel.insert_parallel(items_parallel);
    assert!(parallel_result.is_ok());
    
    // Test sequential insertion
    let mut index_sequential: HNSWIndex<String> = HNSWIndex::new(dimension, 16, 200);
    let mut items_sequential = Vec::new();
    
    for i in 0..num_items {
        let embedding = generate_random_embedding(dimension);
        items_sequential.push((format!("node_{}", i), embedding, None));
    }
    
    let sequential_result = index_sequential.insert_multiple(items_sequential);
    assert!(sequential_result.is_ok());
    
    // Both should have the same number of nodes
    assert_eq!(index_parallel.len(), index_sequential.len());
    assert_eq!(index_parallel.len(), num_items);
    
    // Both should be searchable
    let query = generate_random_embedding(dimension);
    let parallel_search = index_parallel.search(&query, 5);
    let sequential_search = index_sequential.search(&query, 5);
    
    assert_eq!(parallel_search.len(), sequential_search.len());
    assert_eq!(parallel_search.len(), 5);
}

#[test]
fn test_parallel_insertion_search_accuracy() {
    let mut index: HNSWIndex<String> = HNSWIndex::new(3, 16, 200);
    
    // Insert known vectors
    let items = vec![
        ("close1".to_string(), vec![1.0, 1.0, 1.0], None),
        ("close2".to_string(), vec![1.1, 1.1, 1.1], None),
        ("far1".to_string(), vec![10.0, 10.0, 10.0], None),
        ("far2".to_string(), vec![11.0, 11.0, 11.0], None),
    ];
    
    let result = index.insert_parallel(items);
    assert!(result.is_ok());
    
    // Search for a vector close to the first two
    let query = vec![1.05, 1.05, 1.05];
    let results = index.search(&query, 2);
    
    assert_eq!(results.len(), 2);
    
    // The closest results should be the "close" nodes
    let result_ids: Vec<&str> = results.iter().map(|(id, _, _)| id.as_str()).collect();
    assert!(result_ids.contains(&"close1") || result_ids.contains(&"close2"));
}

#[test]
fn test_parallel_insertion_with_different_dimensions() {
    let mut index: HNSWIndex<String> = HNSWIndex::new(5, 16, 200);
    
    let items = vec![
        ("node1".to_string(), vec![1.0, 2.0, 3.0, 4.0, 5.0], None),
        ("node2".to_string(), vec![6.0, 7.0, 8.0, 9.0, 10.0], None),
    ];
    
    let result = index.insert_parallel(items);
    assert!(result.is_ok());
    
    assert_eq!(index.len(), 2);
    
    // Test search with the same dimension
    let query = vec![1.5, 2.5, 3.5, 4.5, 5.5];
    let results = index.search(&query, 1);
    
    assert_eq!(results.len(), 1);
    assert_eq!(results[0].0, "node1"); // Should be closest to node1
}

#[test]
fn test_parallel_insertion_error_handling() {
    let mut index: HNSWIndex<String> = HNSWIndex::new(3, 16, 200);
    
    // Test with invalid embedding dimensions (should not panic, but may have issues)
    let items = vec![
        ("node1".to_string(), vec![1.0, 2.0], None), // Wrong dimension
        ("node2".to_string(), vec![3.0, 4.0, 5.0], None), // Correct dimension
    ];
    
    // This should still work, but the search might not be optimal
    let result = index.insert_parallel(items);
    assert!(result.is_ok());
    
    assert_eq!(index.len(), 2);
}


#[test]
fn test_full_workflow() {
    let mut index = HNSWIndex::new(3, 16, 200);
    
    // Insert multiple documents
    let documents = vec![
        ("doc1", "This is document 1", vec![1.0, 2.0, 3.0]),
        ("doc2", "This is document 2", vec![4.0, 5.0, 6.0]),
        ("doc3", "This is document 3", vec![7.0, 8.0, 9.0]),
        ("doc4", "This is document 4", vec![2.0, 3.0, 4.0]),
        ("doc5", "This is document 5", vec![5.0, 6.0, 7.0]),
    ];
    
    for (id, content, embedding) in documents {
        let doc = Document {
            id: id.to_string(),
            data: content.to_string(),
        };
        index.insert(format!("node_{}", id), embedding, Some(doc)).unwrap();
    }
    
    assert_eq!(index.len(), 5);
    
    // Search for nearest neighbors
    let query = vec![3.0, 4.0, 5.0];
    let results = index.search(&query, 3);
    
    assert_eq!(results.len(), 3);
    
    // Results should be sorted by distance
    for i in 1..results.len() {
        assert!(results[i-1].1 <= results[i].1);
    }
    
    // Remove some documents
    let removed_doc = index.remove("node_doc2").unwrap();
    assert!(removed_doc.is_some());
    assert_eq!(removed_doc.unwrap().data, "This is document 2");
    
    assert_eq!(index.len(), 4);
    
    // Search again after removal
    let results_after = index.search(&query, 3);
    assert_eq!(results_after.len(), 3);
    
    // The removed document should not be in results
    for (id, _distance, _doc) in results_after {
        assert_ne!(id, "node_doc2");
    }
    
    // Rebalance the index
    index.rebalance().unwrap();
    
    // Index should still be functional after rebalancing
    assert_eq!(index.len(), 4);
    let final_results = index.search(&query, 2);
    assert_eq!(final_results.len(), 2);
}

#[test]
fn test_large_dataset_operations() {
    let mut index = HNSWIndex::new(10, 16, 200);
    
    // Insert 100 documents
    for i in 0..100 {
        let doc = Document {
            id: format!("doc_{}", i),
            data: format!("Content for document {}", i),
        };
        let embedding: Vec<f32> = (0..10).map(|j| (i + j) as f32).collect();
        index.insert(format!("node_{}", i), embedding, Some(doc)).unwrap();
    }
    
    assert_eq!(index.len(), 100);
    
    // Search for nearest neighbors
    let query: Vec<f32> = (0..10).map(|i| i as f32).collect();
    let results = index.search(&query, 10);
    
    assert_eq!(results.len(), 10);
    
    // Remove multiple documents
    let ids_to_remove: Vec<String> = (0..20).map(|i| format!("node_{}", i)).collect();
    let ids_refs: Vec<&str> = ids_to_remove.iter().map(|s| s.as_str()).collect();
    let removed_docs = index.remove_multiple(&ids_refs).unwrap();
    
    assert_eq!(removed_docs.len(), 20);
    assert_eq!(index.len(), 80);
    
    // Search again
    let results_after = index.search(&query, 10);
    assert_eq!(results_after.len(), 10);
    
    // Clear the index
    index.clear();
    assert!(index.is_empty());
    assert_eq!(index.len(), 0);
}

#[test]
fn test_different_data_types() {
    // Test with String data
    let mut index_string = HNSWIndex::new(3, 16, 200);
    let doc_string = Document {
        id: "string_doc".to_string(),
        data: "String content".to_string(),
    };
    index_string.insert("node1".to_string(), vec![1.0, 2.0, 3.0], Some(doc_string)).unwrap();
    
    // Test with numeric data
    let mut index_number = HNSWIndex::new(3, 16, 200);
    let doc_number = Document {
        id: "number_doc".to_string(),
        data: 42,
    };
    index_number.insert("node1".to_string(), vec![1.0, 2.0, 3.0], Some(doc_number)).unwrap();
    
    // Test with vector data
    let mut index_vector = HNSWIndex::new(3, 16, 200);
    let doc_vector = Document {
        id: "vector_doc".to_string(),
        data: vec![1, 2, 3],
    };
    index_vector.insert("node1".to_string(), vec![1.0, 2.0, 3.0], Some(doc_vector)).unwrap();
    
    // All should work for search
    let query = vec![1.0, 2.0, 3.0];
    
    let results_string = index_string.search(&query, 1);
    let results_number = index_number.search(&query, 1);
    let results_vector = index_vector.search(&query, 1);
    
    assert_eq!(results_string.len(), 1);
    assert_eq!(results_number.len(), 1);
    assert_eq!(results_vector.len(), 1);
    
    // All should work for removal
    let removed_string = index_string.remove("node1").unwrap();
    let removed_number = index_number.remove("node1").unwrap();
    let removed_vector = index_vector.remove("node1").unwrap();
    
    assert!(removed_string.is_some());
    assert!(removed_number.is_some());
    assert!(removed_vector.is_some());
    
    assert_eq!(removed_string.unwrap().data, "String content");
    assert_eq!(removed_number.unwrap().data, 42);
    assert_eq!(removed_vector.unwrap().data, vec![1, 2, 3]);
}

#[test]
fn test_search_accuracy() {
    let mut index = HNSWIndex::new(2, 16, 200);
    
    // Insert points in a grid pattern
    let points = vec![
        (0.0, 0.0), (1.0, 0.0), (2.0, 0.0),
        (0.0, 1.0), (1.0, 1.0), (2.0, 1.0),
        (0.0, 2.0), (1.0, 2.0), (2.0, 2.0),
    ];
    
    for (i, (x, y)) in points.iter().enumerate() {
        let doc = Document {
            id: format!("point_{}", i),
            data: format!("Point at ({}, {})", x, y),
        };
        let embedding = vec![*x, *y];
        index.insert(format!("node_{}", i), embedding, Some(doc)).unwrap();
    }
    
    // Search for point closest to (1.5, 1.5)
    let query = vec![1.5, 1.5];
    let results = index.search(&query, 3);
    
    assert_eq!(results.len(), 3);
    
    // The closest point should be (1.0, 1.0) - node_4
    assert_eq!(results[0].0, "node_4");
    
    // Calculate expected distances
    let expected_distances = vec![
        ((1.0, 1.0), 0.707), // sqrt(0.5^2 + 0.5^2)
        ((1.0, 2.0), 0.707), // sqrt(0.5^2 + 0.5^2)
        ((2.0, 1.0), 0.707), // sqrt(0.5^2 + 0.5^2)
    ];
    
    // Check that distances are approximately correct
    for (i, (_, expected_dist)) in expected_distances.iter().enumerate() {
        assert!((results[i].1 - expected_dist).abs() < 0.1);
    }
}

#[test]
fn test_index_persistence_simulation() {
    let mut index = HNSWIndex::new(3, 16, 200);
    
    // Insert documents
    for i in 0..20 {
        let doc = Document {
            id: format!("doc_{}", i),
            data: format!("Content {}", i),
        };
        let embedding = vec![i as f32, (i + 1) as f32, (i + 2) as f32];
        index.insert(format!("node_{}", i), embedding, Some(doc)).unwrap();
    }
    
    // Simulate saving state
    let all_ids = index.get_all_ids();
    let node_count = index.len();
    
    // Simulate loading state
    let mut new_index = HNSWIndex::new(3, 16, 200);
    
    // Reinsert all documents
    for i in 0..20 {
        let doc = Document {
            id: format!("doc_{}", i),
            data: format!("Content {}", i),
        };
        let embedding = vec![i as f32, (i + 1) as f32, (i + 2) as f32];
        new_index.insert(format!("node_{}", i), embedding, Some(doc)).unwrap();
    }
    
    // Verify state
    assert_eq!(new_index.len(), node_count);
    assert_eq!(new_index.get_all_ids().len(), all_ids.len());
    
    // Test search consistency
    let query = vec![10.0, 11.0, 12.0];
    let results = new_index.search(&query, 5);
    assert_eq!(results.len(), 5);
}

#[test]
fn test_error_handling() {
    let mut index = HNSWIndex::new(3, 16, 200);
    
    // Test duplicate insertion
    let doc = Document {
        id: "doc1".to_string(),
        data: "content1".to_string(),
    };
    let embedding = vec![1.0, 2.0, 3.0];
    
    index.insert("node1".to_string(), embedding.clone(), Some(doc.clone())).unwrap();
    let result = index.insert("node1".to_string(), embedding, Some(doc));
    assert!(result.is_err());
    
    // Test removal of nonexistent node
    let result = index.remove("nonexistent");
    assert!(result.is_err());
    
    // Test removal of multiple nodes with nonexistent ones
    let result = index.remove_multiple(&["node1", "nonexistent"]);
    assert!(result.is_err());
    
    // Index should still be functional
    assert_eq!(index.len(), 1);
    assert!(index.contains("node1"));
}

#[test]
fn test_performance_characteristics() {
    let mut index = HNSWIndex::new(5, 16, 200);
    
    // Insert documents and measure time
    let start = std::time::Instant::now();
    
    for i in 0..1000 {
        let doc = Document {
            id: format!("doc_{}", i),
            data: format!("Content {}", i),
        };
        let embedding: Vec<f32> = (0..5).map(|j| (i + j) as f32).collect();
        index.insert(format!("node_{}", i), embedding, Some(doc)).unwrap();
    }
    
    let insert_time = start.elapsed();
    println!("Inserted 1000 documents in {:?}", insert_time);
    
    // Search and measure time
    let start = std::time::Instant::now();
    
    for _ in 0..100 {
        let query: Vec<f32> = (0..5).map(|i| i as f32).collect();
        let _results = index.search(&query, 10);
    }
    
    let search_time = start.elapsed();
    println!("Performed 100 searches in {:?}", search_time);
    
    // Verify results
    assert_eq!(index.len(), 1000);
    
    let query: Vec<f32> = (0..5).map(|i| i as f32).collect();
    let results = index.search(&query, 10);
    assert_eq!(results.len(), 10);
    
    // Results should be sorted by distance
    for i in 1..results.len() {
        assert!(results[i-1].1 <= results[i].1);
    }
}
